//! The grammar of a program. Each rule is a function from a text and a position to
//! the parse tree of what stands there and the position after it.

use crate::builder::{
    condition_name, instruction_incdec, instruction_one, instruction_two, instruction_zero,
    size_name, step_name,
};
use crate::lexer::{digits, end_of_word, is_symbol, number_body, skip};
use crate::text::{text_is, text_of};
use crate::tree::{Pair, Rule, Tree};
use crate::{builder, lexer, tree};
use vstd::prelude::*;

verus! {

/// The tree of a rule that matched the characters from `i` to `j`.
pub open spec fn node(rule: Rule, s: Seq<char>, i: int, j: int, inner: Seq<Tree>) -> Tree {
    Tree { rule, text: s.subrange(i, j), inner }
}

/// The tree of a rule without parts.
pub open spec fn leaf(rule: Rule, s: Seq<char>, i: int, j: int) -> Tree {
    node(rule, s, i, j, Seq::empty())
}

/// The tree of a rule that starts at `i` and whose last part is the only one.
pub open spec fn wrap(rule: Rule, s: Seq<char>, i: int, part: Option<(Tree, int)>) -> Option<
    (Tree, int),
> {
    match part {
        Some((tree, j)) => Some((node(rule, s, i, j, seq![tree]), j)),
        None => None,
    }
}

/// Whether a word can name a label or a constant.
pub open spec fn is_label_word(word: Seq<char>) -> bool {
    word.len() > 0 && !('0' <= word[0] && word[0] <= '9')
}

/// A number or a character in quotes.
pub open spec fn immediate_at(s: Seq<char>, i: int) -> Option<(Tree, int)> {
    let end = lexer::word_end(s, i);
    if lexer::symbol_at(s, i, '\'') {
        if lexer::symbol_at(s, i + 2, '\'') {
            Some(
                (
                    node(
                        Rule::ImmediateChar,
                        s,
                        i,
                        i + 3,
                        seq![leaf(Rule::BodyChar, s, i + 1, i + 2)],
                    ),
                    i + 3,
                ),
            )
        } else {
            None
        }
    } else if lexer::symbol_at(s, i, '0') && lexer::symbol_at(s, i + 1, 'b')
        && lexer::is_number_body(s, i + 2, end, 2) {
        Some((node(Rule::ImmediateBin, s, i, end, seq![leaf(Rule::BodyBin, s, i + 2, end)]), end))
    } else if lexer::symbol_at(s, i, '0') && lexer::symbol_at(s, i + 1, 'x')
        && lexer::is_number_body(s, i + 2, end, 16) {
        Some((node(Rule::ImmediateHex, s, i, end, seq![leaf(Rule::BodyHex, s, i + 2, end)]), end))
    } else if lexer::is_number_body(s, i, end, 10) && s[i] != '_' {
        Some((leaf(Rule::ImmediateDec, s, i, end), end))
    } else {
        None
    }
}

/// A register: the letter and its number or name.
pub open spec fn register_at(s: Seq<char>, i: int) -> Option<(Tree, int)> {
    let end = lexer::word_end(s, i);
    let num = s.subrange(i + 1, end);
    if lexer::symbol_at(s, i, 'r') && (num == "sp"@ || num == "esp"@ || num == "fp"@
        || lexer::is_digits(s, i + 1, end)) {
        Some((node(Rule::Register, s, i, end, seq![leaf(Rule::RegisterNum, s, i + 1, end)]), end))
    } else {
        None
    }
}

/// The name of a label.
pub open spec fn label_name_at(s: Seq<char>, i: int) -> Option<(Tree, int)> {
    if is_label_word(lexer::word_at(s, i)) {
        Some((leaf(Rule::LabelName, s, i, lexer::word_end(s, i)), lexer::word_end(s, i)))
    } else {
        None
    }
}

/// A number, a character, a register or a label.
pub open spec fn value_at(s: Seq<char>, i: int) -> Option<(Tree, int)> {
    wrap(
        Rule::OperandValue,
        s,
        i,
        if immediate_at(s, i) is Some {
            immediate_at(s, i)
        } else if register_at(s, i) is Some {
            register_at(s, i)
        } else {
            label_name_at(s, i)
        },
    )
}

/// The offset that is added to a register.
pub open spec fn offset_at(s: Seq<char>, i: int) -> Option<(Tree, int)> {
    if lexer::symbol_at(s, i, '+') {
        wrap(Rule::PointerOffset, s, i, immediate_at(s, lexer::skip_blanks(s, i + 1)))
    } else {
        None
    }
}

/// What stands between square brackets: a register with an optional offset, or a
/// value.
pub open spec fn pointer_at(s: Seq<char>, i: int) -> Option<(Tree, int)> {
    match register_at(s, i) {
        Some((register, j)) => match offset_at(s, lexer::skip_blanks(s, j)) {
            Some((offset, k)) => Some(
                (node(Rule::OperandValuePtr, s, i, k, seq![register, offset]), k),
            ),
            None => Some((node(Rule::OperandValuePtr, s, i, j, seq![register]), j)),
        },
        None => wrap(Rule::OperandValuePtr, s, i, value_at(s, i)),
    }
}

/// An operand: a value, or memory at the place in square brackets.
pub open spec fn operand_at(s: Seq<char>, i: int) -> Option<(Tree, int)> {
    if lexer::symbol_at(s, i, '[') {
        match pointer_at(s, lexer::skip_blanks(s, i + 1)) {
            Some((pointer, j)) => if lexer::symbol_at(s, lexer::skip_blanks(s, j), ']') {
                let end = lexer::skip_blanks(s, j) + 1;
                Some((node(Rule::Operand, s, i, end, seq![pointer]), end))
            } else {
                None
            },
            None => None,
        }
    } else {
        wrap(Rule::Operand, s, i, value_at(s, i))
    }
}

/// The size of an instruction.
pub open spec fn size_at(s: Seq<char>, i: int) -> Option<(Tree, int)> {
    let end = lexer::word_end(s, i + 1);
    if lexer::symbol_at(s, i, '.') && builder::size_named(s.subrange(i, end)) is Some {
        Some((leaf(Rule::Size, s, i, end), end))
    } else {
        None
    }
}

/// The step of an increment or decrement.
pub open spec fn amount_at(s: Seq<char>, i: int) -> Option<(Tree, int)> {
    if builder::step_named(lexer::word_at(s, i)) is Some {
        Some((leaf(Rule::IncDecAmount, s, i, lexer::word_end(s, i)), lexer::word_end(s, i)))
    } else {
        None
    }
}

/// The rule for the name of an instruction, by the number of its operands.
pub open spec fn instruction_rule(word: Seq<char>) -> Option<Rule> {
    if builder::zero_named(word) is Some {
        Some(Rule::InstructionZero)
    } else if builder::one_named(word) is Some {
        Some(Rule::InstructionOne)
    } else if builder::incdec_named(word) is Some {
        Some(Rule::InstructionIncDec)
    } else if builder::two_named(word) is Some {
        Some(Rule::InstructionTwo)
    } else {
        None
    }
}

/// The operands of an instruction, after the end `i` of its name and size.
pub open spec fn operands_at(s: Seq<char>, i: int, rule: Rule) -> Option<(Seq<Tree>, int)> {
    if rule == Rule::InstructionZero {
        Some((Seq::empty(), i))
    } else {
        match operand_at(s, lexer::skip_blanks(s, i)) {
            None => None,
            Some((first, j)) => {
                let comma = lexer::skip_blanks(s, j);
                let next = lexer::skip_blanks(s, comma + 1);
                if rule == Rule::InstructionOne || (rule == Rule::InstructionIncDec
                    && !lexer::symbol_at(s, comma, ',')) {
                    Some((seq![first], j))
                } else if !lexer::symbol_at(s, comma, ',') {
                    None
                } else {
                    match if rule == Rule::InstructionIncDec {
                        amount_at(s, next)
                    } else {
                        operand_at(s, next)
                    } {
                        Some((second, k)) => Some((seq![first, second], k)),
                        None => None,
                    }
                }
            },
        }
    }
}

/// The name of an instruction with its size, where it has one.
pub open spec fn head_at(s: Seq<char>, i: int, rule: Rule) -> (Seq<Tree>, int) {
    let end = lexer::word_end(s, i);
    match size_at(s, lexer::skip_blanks(s, end)) {
        Some((size, j)) => (seq![leaf(rule, s, i, end), size], j),
        None => (seq![leaf(rule, s, i, end)], end),
    }
}

/// An instruction without its condition.
pub open spec fn conditional_at(s: Seq<char>, i: int) -> Option<(Tree, int)> {
    match instruction_rule(lexer::word_at(s, i)) {
        None => None,
        Some(rule) => {
            let (head, j) = head_at(s, i, rule);
            match operands_at(s, j, rule) {
                Some((operands, k)) => Some(
                    (node(Rule::InstructionConditional, s, i, k, head + operands), k),
                ),
                None => None,
            }
        },
    }
}

/// An instruction, under a condition where there is one.
pub open spec fn instruction_at(s: Seq<char>, i: int) -> Option<(Tree, int)> {
    let end = lexer::word_end(s, i);
    if builder::condition_named(lexer::word_at(s, i)) is Some {
        match conditional_at(s, lexer::skip_blanks(s, end)) {
            Some((conditional, j)) => Some(
                (
                    node(
                        Rule::Instruction,
                        s,
                        i,
                        j,
                        seq![leaf(Rule::Condition, s, i, end), conditional],
                    ),
                    j,
                ),
            ),
            None => None,
        }
    } else {
        wrap(Rule::Instruction, s, i, conditional_at(s, i))
    }
}

/// No name that has a meaning is empty.
pub proof fn lemma_named_words_are_not_empty(word: Seq<char>)
    ensures
        builder::step_named(word) is Some ==> word.len() > 0,
        builder::condition_named(word) is Some ==> word.len() > 0,
        instruction_rule(word) is Some ==> word.len() > 0,
{
    reveal_strlit("1");
    reveal_strlit("2");
    reveal_strlit("4");
    reveal_strlit("8");
    reveal_strlit("ifz");
    reveal_strlit("ifnz");
    reveal_strlit("ifc");
    reveal_strlit("ifnc");
    reveal_strlit("ifgt");
    reveal_strlit("ifgteq");
    reveal_strlit("iflt");
    reveal_strlit("iflteq");
    reveal_strlit("nop");
    reveal_strlit("halt");
    reveal_strlit("brk");
    reveal_strlit("ret");
    reveal_strlit("reti");
    reveal_strlit("ise");
    reveal_strlit("icl");
    reveal_strlit("mse");
    reveal_strlit("mcl");
    reveal_strlit("not");
    reveal_strlit("jmp");
    reveal_strlit("call");
    reveal_strlit("loop");
    reveal_strlit("rjmp");
    reveal_strlit("rcall");
    reveal_strlit("rloop");
    reveal_strlit("push");
    reveal_strlit("pop");
    reveal_strlit("int");
    reveal_strlit("tlb");
    reveal_strlit("flp");
    reveal_strlit("inc");
    reveal_strlit("dec");
    reveal_strlit("add");
    reveal_strlit("sub");
    reveal_strlit("mul");
    reveal_strlit("imul");
    reveal_strlit("div");
    reveal_strlit("idiv");
    reveal_strlit("rem");
    reveal_strlit("irem");
    reveal_strlit("and");
    reveal_strlit("or");
    reveal_strlit("xor");
    reveal_strlit("sla");
    reveal_strlit("sra");
    reveal_strlit("srl");
    reveal_strlit("rol");
    reveal_strlit("ror");
    reveal_strlit("bse");
    reveal_strlit("bcl");
    reveal_strlit("bts");
    reveal_strlit("cmp");
    reveal_strlit("mov");
    reveal_strlit("movz");
    reveal_strlit("rta");
    reveal_strlit("in");
    reveal_strlit("out");
}

/// Whether a rule that matched at `i` matched something, within a text of the length
/// `len`.
pub open spec fn advances(result: Option<(Tree, int)>, i: int, len: nat) -> bool {
    match result {
        Some((_, end)) => i < end <= len,
        None => true,
    }
}

proof fn lemma_immediate_advances(s: Seq<char>, i: int)
    requires
        0 <= i <= s.len(),
    ensures
        advances(immediate_at(s, i), i, s.len()),
{
    lexer::lemma_word_end(s, i);
}

/// A register is not empty and stays within the text.
pub proof fn lemma_register_advances(s: Seq<char>, i: int)
    requires
        0 <= i <= s.len(),
    ensures
        advances(register_at(s, i), i, s.len()),
{
    lexer::lemma_word_end(s, i);
    if lexer::symbol_at(s, i, 'r') {
        assert(lexer::is_name_char(s[i]));
        assert(lexer::word_end(s, i) > i);
    }
}

/// The name of a label is not empty and stays within the text.
pub proof fn lemma_label_name_advances(s: Seq<char>, i: int)
    requires
        0 <= i <= s.len(),
    ensures
        advances(label_name_at(s, i), i, s.len()),
{
    lexer::lemma_word_end(s, i);
    assert(lexer::word_at(s, i).len() == lexer::word_end(s, i) - i);
}

/// A value after blanks is not empty and stays within the text.
pub proof fn lemma_value_advances(s: Seq<char>, i: int)
    requires
        0 <= i <= s.len(),
    ensures
        i <= lexer::skip_blanks(s, i) <= s.len(),
        advances(value_at(s, lexer::skip_blanks(s, i)), i, s.len()),
        advances(value_at(s, i), i, s.len()),
{
    lexer::lemma_skip_blanks(s, i);
    let start = lexer::skip_blanks(s, i);
    lemma_immediate_advances(s, i);
    lemma_register_advances(s, i);
    lemma_label_name_advances(s, i);
    lemma_immediate_advances(s, start);
    lemma_register_advances(s, start);
    lemma_label_name_advances(s, start);
}

proof fn lemma_pointer_advances(s: Seq<char>, i: int)
    requires
        0 <= i <= s.len(),
    ensures
        advances(pointer_at(s, i), i, s.len()),
{
    lemma_register_advances(s, i);
    lemma_value_advances(s, i);
    if let Some((_, j)) = register_at(s, i) {
        lexer::lemma_skip_blanks(s, j);
        let plus = lexer::skip_blanks(s, j);
        if lexer::symbol_at(s, plus, '+') {
            lexer::lemma_skip_blanks(s, plus + 1);
            lemma_immediate_advances(s, lexer::skip_blanks(s, plus + 1));
        }
    }
}

/// An operand after blanks is not empty and stays within the text.
pub proof fn lemma_operand_advances(s: Seq<char>, i: int)
    requires
        0 <= i <= s.len(),
    ensures
        i <= lexer::skip_blanks(s, i) <= s.len(),
        advances(operand_at(s, lexer::skip_blanks(s, i)), i, s.len()),
{
    lexer::lemma_skip_blanks(s, i);
    let start = lexer::skip_blanks(s, i);
    lemma_value_advances(s, start);
    if lexer::symbol_at(s, start, '[') {
        lexer::lemma_skip_blanks(s, start + 1);
        let inside = lexer::skip_blanks(s, start + 1);
        lemma_pointer_advances(s, inside);
        if let Some((_, j)) = pointer_at(s, inside) {
            lexer::lemma_skip_blanks(s, j);
        }
    }
}

proof fn lemma_operands_advance(s: Seq<char>, i: int, rule: Rule)
    requires
        0 <= i <= s.len(),
    ensures
        match operands_at(s, i, rule) {
            Some((_, end)) => i <= end <= s.len(),
            None => true,
        },
{
    lemma_operand_advances(s, i);
    if let Some((_, j)) = operand_at(s, lexer::skip_blanks(s, i)) {
        lexer::lemma_skip_blanks(s, j);
        let comma = lexer::skip_blanks(s, j);
        if lexer::symbol_at(s, comma, ',') {
            lemma_operand_advances(s, comma + 1);
            let next = lexer::skip_blanks(s, comma + 1);
            lexer::lemma_word_end(s, next);
        }
    }
}

proof fn lemma_conditional_advances(s: Seq<char>, i: int)
    requires
        0 <= i <= s.len(),
    ensures
        advances(conditional_at(s, i), i, s.len()),
{
    lexer::lemma_word_end(s, i);
    let end = lexer::word_end(s, i);
    lexer::lemma_skip_blanks(s, end);
    let dot = lexer::skip_blanks(s, end);
    if lexer::symbol_at(s, dot, '.') {
        lexer::lemma_word_end(s, dot + 1);
    }
    let name = lexer::word_at(s, i);
    lemma_named_words_are_not_empty(name);
    if let Some(rule) = instruction_rule(name) {
        lemma_operands_advance(s, head_at(s, i, rule).1, rule);
    }
}

/// An instruction is not empty and stays within the text.
pub proof fn lemma_instruction_advances(s: Seq<char>, i: int)
    requires
        0 <= i <= s.len(),
    ensures
        advances(instruction_at(s, i), i, s.len()),
{
    lexer::lemma_word_end(s, i);
    let end = lexer::word_end(s, i);
    lexer::lemma_skip_blanks(s, end);
    lemma_conditional_advances(s, lexer::skip_blanks(s, end));
    lemma_conditional_advances(s, i);
}

/// The mathematical form of what a rule gives.
pub open spec fn found(result: Option<(Pair, usize)>) -> Option<(Tree, int)> {
    match result {
        Some((pair, end)) => Some((pair@, end as int)),
        None => None,
    }
}

/// Whether a rule that matched at `i` moved on, and stayed within the text.
pub open spec fn moved_on(result: Option<(Pair, usize)>, i: usize, len: nat) -> bool {
    match result {
        Some((_, end)) => i < end <= len,
        None => true,
    }
}

/// The tree of a rule that matched the characters from `i` to `j`.
fn make_node(rule: Rule, chars: &Vec<char>, i: usize, j: usize, inner: Vec<Pair>) -> (pair: Pair)
    requires
        i <= j <= chars@.len(),
    ensures
        pair@ == node(rule, chars@, i as int, j as int, tree::trees(inner@)),
{
    Pair::new(rule, text_of(chars, i, j), inner)
}

/// The tree of a rule without parts.
pub(crate) fn make_leaf(rule: Rule, chars: &Vec<char>, i: usize, j: usize) -> (pair: Pair)
    requires
        i <= j <= chars@.len(),
    ensures
        pair@ == leaf(rule, chars@, i as int, j as int),
{
    let inner: Vec<Pair> = Vec::new();
    assert(tree::trees(inner@) =~= Seq::empty());
    make_node(rule, chars, i, j, inner)
}

/// The tree of a rule with one part.
pub(crate) fn make_single(rule: Rule, chars: &Vec<char>, i: usize, j: usize, part: Pair) -> (pair: Pair)
    requires
        i <= j <= chars@.len(),
    ensures
        pair@ == node(rule, chars@, i as int, j as int, seq![part@]),
{
    let ghost view = part@;
    let mut inner: Vec<Pair> = Vec::new();
    inner.push(part);
    assert(tree::trees(inner@) =~= seq![view]);
    make_node(rule, chars, i, j, inner)
}

/// The tree of a rule with two parts.
pub(crate) fn make_double(
    rule: Rule,
    chars: &Vec<char>,
    i: usize,
    j: usize,
    first: Pair,
    second: Pair,
) -> (pair: Pair)
    requires
        i <= j <= chars@.len(),
    ensures
        pair@ == node(rule, chars@, i as int, j as int, seq![first@, second@]),
{
    let ghost views = seq![first@, second@];
    let mut inner: Vec<Pair> = Vec::new();
    inner.push(first);
    inner.push(second);
    assert(tree::trees(inner@) =~= views);
    make_node(rule, chars, i, j, inner)
}

/// The tree of a rule that starts at `i` and whose last part is the only one.
pub(crate) fn make_wrap(rule: Rule, chars: &Vec<char>, i: usize, part: Option<(Pair, usize)>) -> (result:
    Option<(Pair, usize)>)
    requires
        moved_on(part, i, chars@.len()),
    ensures
        found(result) == wrap(rule, chars@, i as int, found(part)),
        moved_on(result, i, chars@.len()),
{
    match part {
        Some((pair, end)) => Some((make_single(rule, chars, i, end, pair), end)),
        None => None,
    }
}

/// The word that starts at `i`.
pub(crate) fn word(chars: &Vec<char>, i: usize) -> (text: String)
    requires
        i <= chars@.len(),
    ensures
        text@ == lexer::word_at(chars@, i as int),
{
    text_of(chars, i, end_of_word(chars, i))
}

/// A number or a character in quotes.
fn immediate(chars: &Vec<char>, i: usize) -> (result: Option<(Pair, usize)>)
    requires
        i <= chars@.len(),
    ensures
        found(result) == immediate_at(chars@, i as int),
        moved_on(result, i, chars@.len()),
{
    if is_symbol(chars, i, '\'') {
        if chars.len() - i > 2 && is_symbol(chars, i + 2, '\'') {
            let body = make_leaf(Rule::BodyChar, chars, i + 1, i + 2);
            return Some((make_single(Rule::ImmediateChar, chars, i, i + 3, body), i + 3));
        } else {
            return None;
        }
    }
    let end = end_of_word(chars, i);
    if is_symbol(chars, i, '0') && is_symbol(chars, i + 1, 'b') && number_body(
        chars,
        i + 2,
        end,
        2,
    ) {
        let body = make_leaf(Rule::BodyBin, chars, i + 2, end);
        Some((make_single(Rule::ImmediateBin, chars, i, end, body), end))
    } else if is_symbol(chars, i, '0') && is_symbol(chars, i + 1, 'x') && number_body(
        chars,
        i + 2,
        end,
        16,
    ) {
        let body = make_leaf(Rule::BodyHex, chars, i + 2, end);
        Some((make_single(Rule::ImmediateHex, chars, i, end, body), end))
    } else if number_body(chars, i, end, 10) && chars[i] != '_' {
        Some((make_leaf(Rule::ImmediateDec, chars, i, end), end))
    } else {
        None
    }
}

/// A register: the letter and its number or name.
fn register(chars: &Vec<char>, i: usize) -> (result: Option<(Pair, usize)>)
    requires
        i <= chars@.len(),
    ensures
        found(result) == register_at(chars@, i as int),
        moved_on(result, i, chars@.len()),
{
    if !is_symbol(chars, i, 'r') {
        return None;
    }
    let end = end_of_word(chars, i);
    proof {
        lexer::lemma_word_end(chars@, i as int);
        assert(lexer::is_name_char(chars@[i as int]));
        assert(end > i);
    }
    let num = text_of(chars, i + 1, end);
    if text_is(&num, "sp") || text_is(&num, "esp") || text_is(&num, "fp") || digits(
        chars,
        i + 1,
        end,
    ) {
        let body = make_leaf(Rule::RegisterNum, chars, i + 1, end);
        Some((make_single(Rule::Register, chars, i, end, body), end))
    } else {
        None
    }
}

/// The name of a label.
pub(crate) fn label_name(chars: &Vec<char>, i: usize) -> (result: Option<(Pair, usize)>)
    requires
        i <= chars@.len(),
    ensures
        found(result) == label_name_at(chars@, i as int),
        moved_on(result, i, chars@.len()),
{
    let end = end_of_word(chars, i);
    if i < end && (chars[i] < '0' || chars[i] > '9') {
        Some((make_leaf(Rule::LabelName, chars, i, end), end))
    } else {
        None
    }
}

/// A number, a character, a register or a label.
pub(crate) fn value(chars: &Vec<char>, i: usize) -> (result: Option<(Pair, usize)>)
    requires
        i <= chars@.len(),
    ensures
        found(result) == value_at(chars@, i as int),
        moved_on(result, i, chars@.len()),
{
    let number = immediate(chars, i);
    if number.is_some() {
        return make_wrap(Rule::OperandValue, chars, i, number);
    }
    let place = register(chars, i);
    if place.is_some() {
        return make_wrap(Rule::OperandValue, chars, i, place);
    }
    make_wrap(Rule::OperandValue, chars, i, label_name(chars, i))
}

/// The offset that is added to a register.
fn offset(chars: &Vec<char>, i: usize) -> (result: Option<(Pair, usize)>)
    requires
        i <= chars@.len(),
    ensures
        found(result) == offset_at(chars@, i as int),
        moved_on(result, i, chars@.len()),
{
    if is_symbol(chars, i, '+') {
        let start = skip(chars, i + 1);
        make_wrap(Rule::PointerOffset, chars, i, immediate(chars, start))
    } else {
        None
    }
}

/// What stands between square brackets.
fn pointer(chars: &Vec<char>, i: usize) -> (result: Option<(Pair, usize)>)
    requires
        i <= chars@.len(),
    ensures
        found(result) == pointer_at(chars@, i as int),
        moved_on(result, i, chars@.len()),
{
    match register(chars, i) {
        Some((base, j)) => match offset(chars, skip(chars, j)) {
            Some((distance, k)) => Some(
                (make_double(Rule::OperandValuePtr, chars, i, k, base, distance), k),
            ),
            None => Some((make_single(Rule::OperandValuePtr, chars, i, j, base), j)),
        },
        None => make_wrap(Rule::OperandValuePtr, chars, i, value(chars, i)),
    }
}

/// An operand: a value, or memory at the place in square brackets.
fn operand(chars: &Vec<char>, i: usize) -> (result: Option<(Pair, usize)>)
    requires
        i <= chars@.len(),
    ensures
        found(result) == operand_at(chars@, i as int),
        moved_on(result, i, chars@.len()),
{
    if is_symbol(chars, i, '[') {
        match pointer(chars, skip(chars, i + 1)) {
            Some((place, j)) => {
                let close = skip(chars, j);
                if is_symbol(chars, close, ']') {
                    Some((make_single(Rule::Operand, chars, i, close + 1, place), close + 1))
                } else {
                    None
                }
            },
            None => None,
        }
    } else {
        make_wrap(Rule::Operand, chars, i, value(chars, i))
    }
}

/// The size of an instruction.
fn size(chars: &Vec<char>, i: usize) -> (result: Option<(Pair, usize)>)
    requires
        i <= chars@.len(),
    ensures
        found(result) == size_at(chars@, i as int),
        moved_on(result, i, chars@.len()),
{
    if is_symbol(chars, i, '.') {
        let end = end_of_word(chars, i + 1);
        let name = text_of(chars, i, end);
        if size_name(&name).is_some() {
            return Some((make_leaf(Rule::Size, chars, i, end), end));
        }
    }
    None
}

/// The step of an increment or decrement.
fn amount(chars: &Vec<char>, i: usize) -> (result: Option<(Pair, usize)>)
    requires
        i <= chars@.len(),
    ensures
        found(result) == amount_at(chars@, i as int),
        moved_on(result, i, chars@.len()),
{
    let end = end_of_word(chars, i);
    let name = text_of(chars, i, end);
    if step_name(&name).is_some() {
        proof {
            lemma_named_words_are_not_empty(name@);
        }
        Some((make_leaf(Rule::IncDecAmount, chars, i, end), end))
    } else {
        None
    }
}

/// The rule for the name of an instruction.
fn rule_of_instruction(name: &String) -> (rule: Option<Rule>)
    ensures
        rule == instruction_rule(name@),
{
    if instruction_zero(name).is_some() {
        Some(Rule::InstructionZero)
    } else if instruction_one(name).is_some() {
        Some(Rule::InstructionOne)
    } else if instruction_incdec(name).is_some() {
        Some(Rule::InstructionIncDec)
    } else if instruction_two(name).is_some() {
        Some(Rule::InstructionTwo)
    } else {
        None
    }
}

/// The operands of an instruction, after the end `i` of its name and size; they are
/// appended to its parts.
fn operands(chars: &Vec<char>, i: usize, rule: Rule, parts: &mut Vec<Pair>) -> (end: Option<usize>)
    requires
        i <= chars@.len(),
    ensures
        match end {
            Some(j) => {
                &&& operands_at(chars@, i as int, rule) matches Some((trees, k))
                &&& k == j
                &&& tree::trees(final(parts)@) == tree::trees(old(parts)@) + trees
                &&& i <= j <= chars@.len()
            },
            None => operands_at(chars@, i as int, rule) is None,
        },
{
    if rule == Rule::InstructionZero {
        assert(tree::trees(parts@) + Seq::<Tree>::empty() =~= tree::trees(parts@));
        return Some(i);
    }
    let ghost start = tree::trees(parts@);
    match operand(chars, skip(chars, i)) {
        None => None,
        Some((first, j)) => {
            let ghost one = first@;
            parts.push(first);
            assert(tree::trees(parts@) =~= start + seq![one]);
            let comma = skip(chars, j);
            let is_comma = is_symbol(chars, comma, ',');
            if rule == Rule::InstructionOne || (rule == Rule::InstructionIncDec && !is_comma) {
                return Some(j);
            }
            if !is_comma {
                return None;
            }
            let next = skip(chars, comma + 1);
            let last = if rule == Rule::InstructionIncDec {
                amount(chars, next)
            } else {
                operand(chars, next)
            };
            match last {
                Some((second, k)) => {
                    let ghost two = second@;
                    parts.push(second);
                    assert(tree::trees(parts@) =~= start + seq![one, two]);
                    Some(k)
                },
                None => None,
            }
        },
    }
}

/// An instruction without its condition.
fn conditional(chars: &Vec<char>, i: usize) -> (result: Option<(Pair, usize)>)
    requires
        i <= chars@.len(),
    ensures
        found(result) == conditional_at(chars@, i as int),
        moved_on(result, i, chars@.len()),
{
    let end = end_of_word(chars, i);
    let name = text_of(chars, i, end);
    let rule = match rule_of_instruction(&name) {
        Some(rule) => rule,
        None => {
            return None;
        },
    };
    proof {
        lemma_named_words_are_not_empty(name@);
    }
    let mut parts: Vec<Pair> = Vec::new();
    parts.push(make_leaf(rule, chars, i, end));
    assert(tree::trees(parts@) =~= seq![leaf(rule, chars@, i as int, end as int)]);
    let mut at: usize = end;
    match size(chars, skip(chars, end)) {
        Some((width, j)) => {
            let ghost view = width@;
            parts.push(width);
            assert(tree::trees(parts@) =~= seq![
                leaf(rule, chars@, i as int, end as int),
                view,
            ]);
            at = j;
        },
        None => {},
    }
    match operands(chars, at, rule, &mut parts) {
        Some(k) => Some((make_node(Rule::InstructionConditional, chars, i, k, parts), k)),
        None => None,
    }
}

/// An instruction, under a condition where there is one.
pub(crate) fn instruction(chars: &Vec<char>, i: usize) -> (result: Option<(Pair, usize)>)
    requires
        i <= chars@.len(),
    ensures
        found(result) == instruction_at(chars@, i as int),
        moved_on(result, i, chars@.len()),
{
    let end = end_of_word(chars, i);
    let name = text_of(chars, i, end);
    if condition_name(&name).is_some() {
        proof {
            lemma_named_words_are_not_empty(name@);
        }
        match conditional(chars, skip(chars, end)) {
            Some((body, j)) => {
                let condition = make_leaf(Rule::Condition, chars, i, end);
                Some((make_double(Rule::Instruction, chars, i, j, condition, body), j))
            },
            None => None,
        }
    } else {
        make_wrap(Rule::Instruction, chars, i, conditional(chars, i))
    }
}

} // verus!
