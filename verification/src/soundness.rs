//! What holds of every program that the grammar accepts.

use crate::assembler::{AsmView, ErrorView};
use crate::ast::{Condition, NodeView, Size};
use crate::builder::ParseError;
use crate::tree::Rule;
use crate::{assembler, builder, decoding, emit, encode, grammar, lexer, program, statements};
use vstd::prelude::*;

verus! {

/// Whether an operand fits an instruction that takes immediate values of the given size,
/// where it is an immediate value.
pub open spec fn operand_fits(operand: NodeView, size: Size) -> bool {
    match operand {
        NodeView::LabelOperand { .. }
        | NodeView::LabelOperandPointer { .. }
        | NodeView::RegisterPointerOffset(_, _) => true,
        _ => decoding::is_plain_operand(operand, size),
    }
}

/// Whether the operands of an instruction fit its size.
pub open spec fn operands_fit(node: NodeView) -> bool {
    match node {
        NodeView::OperationOne(op) => operand_fits(*op.operand, op.size),
        NodeView::OperationIncDec(op) => operand_fits(*op.lhs, op.size)
            && decoding::has_valid_step(node),
        NodeView::OperationTwo(op) => operand_fits(*op.lhs, op.size) && operand_fits(
            *op.rhs,
            decoding::right_size(op),
        ),
        _ => true,
    }
}

/// Whether a node can stand as a statement of a program.
pub open spec fn is_statement(node: NodeView) -> bool {
    match node {
        NodeView::LabelDefine { .. }
        | NodeView::Constant { .. }
        | NodeView::Origin(_)
        | NodeView::OriginPadded(_)
        | NodeView::DataFill { .. }
        | NodeView::IncludeBinary { .. }
        | NodeView::IncludedBinary(_)
        | NodeView::Optimize(_) => true,
        _ => emit::is_assemblable(node) && operands_fit(node),
    }
}

/// Whether an error says something of the program, and not of its parse tree.
pub open spec fn is_error_of_program(error: ParseError) -> bool {
    error != ParseError::Malformed && error != ParseError::Unsupported
}

/// Whether parsing gave an operand that fits the given size, or an error of the program.
pub open spec fn gives_operand(result: Result<NodeView, ParseError>, size: Size) -> bool {
    match result {
        Ok(node) => encode::is_operand(node) && operand_fits(node, size),
        Err(error) => is_error_of_program(error),
    }
}

/// Whether parsing gave a statement, or an error of the program.
pub open spec fn gives_statement(result: Result<(NodeView, Size), ParseError>) -> bool {
    match result {
        Ok((node, _)) => is_statement(node),
        Err(error) => is_error_of_program(error),
    }
}

proof fn lemma_immediate(s: Seq<char>, i: int)
    requires
        0 <= i <= s.len(),
    ensures
        grammar::immediate_at(s, i) matches Some((tree, _)) ==> {
            &&& builder::immediate_of(tree) matches Err(error) ==> is_error_of_program(error)
            &&& tree.rule == Rule::ImmediateBin || tree.rule == Rule::ImmediateHex || tree.rule
                == Rule::ImmediateDec || tree.rule == Rule::ImmediateChar
        },
{
}

proof fn lemma_register(s: Seq<char>, i: int)
    requires
        0 <= i <= s.len(),
    ensures
        grammar::register_at(s, i) matches Some((tree, _)) ==> {
            &&& builder::register_of(tree) matches Err(error) ==> is_error_of_program(error)
            &&& tree.rule == Rule::Register
        },
{
}

proof fn lemma_value(s: Seq<char>, i: int, is_pointer: bool, size: Size)
    requires
        0 <= i <= s.len(),
    ensures
        grammar::value_at(s, i) matches Some((tree, _)) ==> {
            &&& tree.rule == Rule::OperandValue
            &&& tree.inner.len() == 1
            &&& gives_operand(builder::value_of(tree.inner[0], is_pointer, size), size)
        },
{
    lemma_immediate(s, i);
    lemma_register(s, i);
}

proof fn lemma_pointer(s: Seq<char>, i: int, size: Size)
    requires
        0 <= i <= s.len(),
    ensures
        grammar::pointer_at(s, i) matches Some((tree, _)) ==> {
            &&& tree.rule == Rule::OperandValuePtr
            &&& gives_operand(builder::operand_of(tree, true, size), size)
        },
{
    lemma_register(s, i);
    grammar::lemma_register_advances(s, i);
    lemma_value(s, i, true, size);
    if let Some((_, j)) = grammar::register_at(s, i) {
        lexer::lemma_skip_blanks(s, j);
        let plus = lexer::skip_blanks(s, j);
        if lexer::symbol_at(s, plus, '+') {
            lexer::lemma_skip_blanks(s, plus + 1);
            lemma_immediate(s, lexer::skip_blanks(s, plus + 1));
        }
    }
}

proof fn lemma_operand(s: Seq<char>, i: int, size: Size)
    requires
        0 <= i <= s.len(),
    ensures
        grammar::operand_at(s, i) matches Some((tree, _)) ==> {
            &&& tree.rule == Rule::Operand
            &&& match statements::statement_of(tree, size) {
                Ok((node, after)) => encode::is_operand(node) && operand_fits(node, size) && after
                    == size,
                Err(error) => is_error_of_program(error),
            }
        },
{
    lemma_value(s, i, false, size);
    if lexer::symbol_at(s, i, '[') {
        lexer::lemma_skip_blanks(s, i + 1);
        lemma_pointer(s, lexer::skip_blanks(s, i + 1), size);
    }
}

/// The parts of an instruction: its name, its size where it has one, and its operands.
proof fn lemma_conditional(s: Seq<char>, i: int, condition: Condition)
    requires
        0 <= i <= s.len(),
    ensures
        grammar::conditional_at(s, i) matches Some((tree, _)) ==> gives_statement(
            statements::instruction_of(tree, condition),
        ),
{
    if let Some((tree, _)) = grammar::conditional_at(s, i) {
        let word = lexer::word_at(s, i);
        let rule = grammar::instruction_rule(word)->0;
        let (head, j) = grammar::head_at(s, i, rule);
        let (operands, _) = grammar::operands_at(s, j, rule)->0;
        let end = lexer::word_end(s, i);
        lexer::lemma_word_end(s, i);
        lexer::lemma_skip_blanks(s, end);
        let dot = lexer::skip_blanks(s, end);
        if lexer::symbol_at(s, dot, '.') {
            lexer::lemma_word_end(s, dot + 1);
        }
        assert(tree.inner == head + operands);
        assert(tree.inner[0] == head[0]);
        let size = if head.len() == 2 {
            builder::size_named(head[1].text)->0
        } else {
            Size::Word
        };
        if head.len() == 2 {
            assert(tree.inner[1] == head[1]);
        } else if operands.len() > 0 {
            assert(tree.inner[1] == operands[0]);
        }
        if rule != Rule::InstructionZero {
            lexer::lemma_skip_blanks(s, j);
            let start = lexer::skip_blanks(s, j);
            lemma_operand(s, start, size);
            grammar::lemma_operand_advances(s, j);
            assert(tree.inner[head.len() as int] == operands[0]);
            if operands.len() == 2 {
                let (_, first_end) = grammar::operand_at(s, start)->0;
                lexer::lemma_skip_blanks(s, first_end);
                let comma = lexer::skip_blanks(s, first_end);
                lexer::lemma_skip_blanks(s, comma + 1);
                lemma_operand(s, lexer::skip_blanks(s, comma + 1), size);
                assert(tree.inner[head.len() as int + 1] == operands[1]);
            }
        }
        assert(statements::size_of(tree) == Ok::<(Size, int), ParseError>(
            (size, head.len() as int),
        ));
        reveal_with_fuel(statements::instruction_of, 2);
    }
}

proof fn lemma_instruction(s: Seq<char>, i: int, size: Size)
    requires
        0 <= i <= s.len(),
    ensures
        grammar::instruction_at(s, i) matches Some((tree, _)) ==> tree.rule == Rule::Instruction
            && gives_statement(statements::statement_of(tree, size)),
{
    if let Some((tree, _)) = grammar::instruction_at(s, i) {
        let end = lexer::word_end(s, i);
        lexer::lemma_word_end(s, i);
        lexer::lemma_skip_blanks(s, end);
        match builder::condition_named(lexer::word_at(s, i)) {
            Some(condition) => {
                lemma_conditional(s, lexer::skip_blanks(s, end), condition);
                assert(tree.inner[0].text == lexer::word_at(s, i));
            },
            None => {
                lemma_conditional(s, i, Condition::Always);
                assert(tree.inner[0].rule == Rule::InstructionConditional);
            },
        }
    }
}

proof fn lemma_label(s: Seq<char>, i: int, size: Size)
    requires
        0 <= i <= s.len(),
    ensures
        program::label_at(s, i) matches Some((tree, _)) ==> tree.rule == Rule::Label
            && gives_statement(statements::statement_of(tree, size)),
{
    if let Some((tree, _)) = program::label_at(s, i) {
        assert(tree.inner[0].rule == Rule::LabelKind || tree.inner[0].rule == Rule::LabelName);
    }
}

proof fn lemma_constant(s: Seq<char>, i: int, size: Size)
    requires
        0 <= i <= s.len(),
    ensures
        program::constant_at(s, i) matches Some((tree, _)) ==> tree.rule == Rule::Constant
            && gives_statement(statements::statement_of(tree, size)),
{
    if let Some((tree, _)) = program::constant_at(s, i) {
        lexer::lemma_word_end(s, i);
        lexer::lemma_skip_blanks(s, lexer::word_end(s, i));
        let start = lexer::skip_blanks(s, lexer::word_end(s, i));
        grammar::lemma_label_name_advances(s, start);
        let (_, j) = grammar::label_name_at(s, start)->0;
        lexer::lemma_skip_blanks(s, j);
        let colon = lexer::skip_blanks(s, j);
        lexer::lemma_skip_blanks(s, colon + 1);
        lemma_value(s, lexer::skip_blanks(s, colon + 1), false, Size::Word);
        assert(tree.inner[0].rule == Rule::ConstantName);
        assert(tree.child(1) == Some(tree.inner[1]));
    }
}

proof fn lemma_data(s: Seq<char>, i: int, size: Size)
    requires
        0 <= i <= s.len(),
    ensures
        program::data_at(s, i) matches Some((tree, _)) ==> tree.rule == Rule::Data
            && gives_statement(statements::statement_of(tree, size)),
{
    if let Some((tree, _)) = program::data_at(s, i) {
        lexer::lemma_word_end(s, i);
        let dot = lexer::word_end(s, i);
        lexer::lemma_word_end(s, dot + 1);
        let end = lexer::word_end(s, dot + 1);
        lexer::lemma_skip_blanks(s, end);
        let start = lexer::skip_blanks(s, end);
        let rule = program::data_rule(lexer::word_at(s, dot + 1))->0;
        let part = tree.inner[0];
        lemma_value(s, start, false, Size::Word);
        assert(part.rule == rule);
        if rule == Rule::DataFill {
            grammar::lemma_value_advances(s, start);
            let (_, j) = grammar::value_at(s, start)->0;
            lexer::lemma_skip_blanks(s, j);
            let comma = lexer::skip_blanks(s, j);
            lexer::lemma_skip_blanks(s, comma + 1);
            lemma_value(s, lexer::skip_blanks(s, comma + 1), false, Size::Word);
            assert(part.child(1) == Some(part.inner[1]));
        } else if rule == Rule::DataStr || rule == Rule::DataStrZero {
            assert(part.inner[0].inner.len() == 1);
        }
        assert(part.child(0) == Some(part.inner[0]));
    }
}

proof fn lemma_origin(s: Seq<char>, i: int, size: Size)
    requires
        0 <= i <= s.len(),
    ensures
        program::origin_at(s, i) matches Some((tree, _)) ==> tree.rule == Rule::Origin
            && gives_statement(statements::statement_of(tree, size)),
{
    if let Some((tree, _)) = program::origin_at(s, i) {
        lexer::lemma_word_end(s, i);
        let end = lexer::word_end(s, i);
        lexer::lemma_skip_blanks(s, end);
        lemma_value(s, lexer::skip_blanks(s, end), false, size);
        if lexer::symbol_at(s, end, '.') {
            lexer::lemma_word_end(s, end + 1);
            lexer::lemma_skip_blanks(s, lexer::word_end(s, end + 1));
            lemma_value(s, lexer::skip_blanks(s, lexer::word_end(s, end + 1)), false, size);
        }
        let part = tree.inner[0];
        assert(part.rule == Rule::OriginPadding || part.rule == Rule::OriginNoPadding);
        assert(part.child(0) == Some(part.inner[0]));
    }
}

proof fn lemma_opt_and_binary(s: Seq<char>, i: int, size: Size)
    requires
        0 <= i <= s.len(),
    ensures
        program::opt_at(s, i) matches Some((tree, _)) ==> tree.rule == Rule::Opt
            && gives_statement(statements::statement_of(tree, size)),
        program::binary_at(s, i) matches Some((tree, _)) ==> tree.rule != Rule::EndOfInput
            && gives_statement(statements::statement_of(tree, size)),
{
    if let Some((tree, _)) = program::opt_at(s, i) {
        assert(tree.inner[0].text == lexer::word_at(s, i));
        assert(tree.inner[0].rule == Rule::OptSwitch);
    }
    if let Some((tree, _)) = program::binary_at(s, i) {
        assert(tree.inner[0].rule == Rule::QuotedText);
        assert(tree.inner[0].child(0) == Some(tree.inner[0].inner[0]));
    }
}

proof fn lemma_statement(s: Seq<char>, i: int, size: Size)
    requires
        0 <= i <= s.len(),
    ensures
        program::statement_at(s, i) matches Some((tree, _)) ==> tree.rule != Rule::EndOfInput
            && gives_statement(statements::statement_of(tree, size)),
{
    reveal(program::statement_at);
    lemma_label(s, i, size);
    lemma_constant(s, i, size);
    lemma_data(s, i, size);
    lemma_origin(s, i, size);
    lemma_opt_and_binary(s, i, size);
    lemma_instruction(s, i, size);
}

/// Whether parsing gave a program, or an error of it.
pub open spec fn gives_program(result: Result<Seq<NodeView>, ParseError>) -> bool {
    match result {
        Ok(nodes) => forall|k: int| 0 <= k < nodes.len() ==> is_statement(#[trigger] nodes[k]),
        Err(error) => is_error_of_program(error),
    }
}

proof fn lemma_statements(s: Seq<char>, i: int, size: Size)
    requires
        0 <= i <= s.len(),
    ensures
        program::statements_at(s, i) matches Ok(parts) ==> gives_program(
            statements::program_of(parts, size),
        ),
    decreases s.len() - i,
{
    if let Ok(parts) = program::statements_at(s, i) {
        lexer::lemma_skip_blanks(s, i);
        let start = lexer::skip_blanks(s, i);
        if start < s.len() {
            program::lemma_statement_advances(s, start);
            lemma_statement(s, start, size);
            let (tree, j) = program::statement_at(s, start)->0;
            let rest = program::statements_at(s, j)->Ok_0;
            assert(parts.drop_first() =~= rest);
            if let Ok((node, after)) = statements::statement_of(tree, size) {
                lemma_statements(s, j, after);
            }
        }
    }
}

/// Every text is either a program, all of whose nodes can stand as statements, or
/// has an error that says what is wrong with it: the grammar leaves no parse tree that
/// has no meaning.
pub proof fn law_parsing_gives_statements(s: Seq<char>)
    ensures
        gives_program(program::parsed(s)),
{
    lemma_statements(s, 0, Size::Word);
}

/// A program of statements whose binary files have been read can be assembled, up to
/// its labels and addresses.
pub proof fn law_statements_can_be_assembled(state: AsmView, nodes: Seq<NodeView>)
    requires
        forall|k: int|
            0 <= k < nodes.len() ==> is_statement(#[trigger] nodes[k]) && !(
            nodes[k] is IncludeBinary),
    ensures
        assembler::run(state, nodes) matches Err(error) ==> error != ErrorView::NotAssemblable,
    decreases nodes.len(),
{
    if nodes.len() > 0 {
        let node = nodes[0];
        if encode::is_encodable(node) {
            decoding::law_optimizing_does_not_lengthen(node);
        }
        if let Ok(next) = assembler::step(state, node) {
            let rest = nodes.drop_first();
            assert forall|k: int| 0 <= k < rest.len() implies is_statement(#[trigger] rest[k])
                && !(rest[k] is IncludeBinary) by {
                assert(rest[k] == nodes[k + 1]);
            }
            law_statements_can_be_assembled(next, rest);
        }
    }
}

} // verus!
