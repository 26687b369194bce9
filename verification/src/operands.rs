//! Operands as they are written in a program, and what they stand for.

use crate::ast::{NodeView, Size};
use crate::builder::ParseError;
use crate::numerals::{Base, Gap, Numeral};
use crate::tree::Rule;
use crate::{builder, grammar, lexer, numerals, statements};
use vstd::prelude::*;

verus! {

/// A value as it is written.
pub enum Value {
    Number(Numeral),
    Letter(char),
    Register(nat),
    StackPointer,
    ExceptionStackPointer,
    FramePointer,
    Label(Seq<char>),
}

/// Whether a word is the name of a register.
pub open spec fn is_register_name(word: Seq<char>) -> bool {
    &&& word.len() > 1
    &&& word[0] == 'r'
    &&& {
        ||| word == seq!['r', 's', 'p']
        ||| word == seq!['r', 'e', 's', 'p']
        ||| word == seq!['r', 'f', 'p']
        ||| forall|k: int| 1 <= k < word.len() ==> '0' <= #[trigger] word[k] && word[k] <= '9'
    }
}

/// Whether a word can name a label.
pub open spec fn is_name(word: Seq<char>) -> bool {
    &&& word.len() > 0
    &&& forall|k: int| 0 <= k < word.len() ==> numerals::is_word_char(#[trigger] word[k])
    &&& !('0' <= word[0] && word[0] <= '9')
}

/// Whether a value can be written: a label that is used is not named like a register.
pub open spec fn is_value(value: Value) -> bool {
    match value {
        Value::Label(name) => is_name(name) && !is_register_name(name),
        _ => true,
    }
}

pub open spec fn value_text(value: Value) -> Seq<char> {
    match value {
        Value::Number(number) => numerals::numeral_text(number),
        Value::Letter(c) => seq!['\'', c, '\''],
        Value::Register(number) => seq!['r'] + numerals::digits(number, 10, false, false),
        Value::StackPointer => seq!['r', 's', 'p'],
        Value::ExceptionStackPointer => seq!['r', 'e', 's', 'p'],
        Value::FramePointer => seq!['r', 'f', 'p'],
        Value::Label(name) => name,
    }
}

/// The word that a number or a character in quotes stands for.
pub open spec fn immediate_meaning(value: Value) -> Result<u32, ParseError> {
    match value {
        Value::Number(number) => numerals::numeral_value(number),
        Value::Letter(c) => Ok((c as int % 256) as u32),
        _ => Err(ParseError::Malformed),
    }
}

/// The number of a register.
pub open spec fn register_meaning(value: Value) -> Result<u8, ParseError> {
    match value {
        Value::Register(number) => if number <= 34 {
            Ok(number as u8)
        } else if number <= 255 {
            Err(ParseError::RegisterOutOfRange)
        } else {
            Err(ParseError::InvalidNumber)
        },
        Value::StackPointer => Ok(32),
        Value::ExceptionStackPointer => Ok(33),
        Value::FramePointer => Ok(34),
        _ => Err(ParseError::Malformed),
    }
}

pub open spec fn is_number(value: Value) -> bool {
    value is Number || value is Letter
}

pub open spec fn is_register(value: Value) -> bool {
    value is Register || value is StackPointer || value is ExceptionStackPointer
        || value is FramePointer
}

/// What a value stands for in an instruction of the given size: a number is cut down to
/// that size.
pub open spec fn value_meaning(value: Value, size: Size) -> Result<NodeView, ParseError> {
    if is_number(value) {
        match immediate_meaning(value) {
            Err(error) => Err(error),
            Ok(n) => match size {
                Size::Byte => Ok(NodeView::Immediate8((n % 256) as u8)),
                Size::Half => Ok(NodeView::Immediate16((n % 65536) as u16)),
                Size::Word => Ok(NodeView::Immediate32(n)),
            },
        }
    } else if is_register(value) {
        match register_meaning(value) {
            Err(error) => Err(error),
            Ok(r) => Ok(NodeView::Register(r)),
        }
    } else {
        Ok(NodeView::LabelOperand { name: value_text(value), size, is_relative: false })
    }
}

/// What a value in square brackets stands for.
pub open spec fn memory_meaning(value: Value) -> Result<NodeView, ParseError> {
    if is_number(value) {
        match immediate_meaning(value) {
            Err(error) => Err(error),
            Ok(n) => Ok(NodeView::ImmediatePointer(n)),
        }
    } else if is_register(value) {
        match register_meaning(value) {
            Err(error) => Err(error),
            Ok(r) => Ok(NodeView::RegisterPointer(r)),
        }
    } else {
        Ok(NodeView::LabelOperandPointer { name: value_text(value), is_relative: false })
    }
}

/// The text of a value is a word, but for a character in quotes.
pub proof fn lemma_value_chars(value: Value)
    requires
        is_value(value),
    ensures
        value_text(value).len() > 0,
        !(value is Letter) ==> forall|k: int|
            0 <= k < value_text(value).len() ==> numerals::is_word_char(
                #[trigger] value_text(value)[k],
            ),
        value is Letter || numerals::is_word_char(value_text(value)[0]) || value_text(value)[0]
            == '\'',
        value is Letter ==> value_text(value)[0] == '\'',
{
    let text = value_text(value);
    match value {
        Value::Number(number) => {
            numerals::lemma_body_chars(number);
            let head = numerals::prefix(number.base);
            let body = numerals::body_text(number);
            assert forall|k: int| 0 <= k < text.len() implies numerals::is_word_char(
                #[trigger] text[k],
            ) by {
                if k >= head.len() {
                    assert(text[k] == body[k - head.len()]);
                    reveal(numerals::is_body_char);
                }
            }
        },
        Value::Register(number) => {
            let plain = Numeral {
                value: number,
                base: Base::Decimal,
                zeros: 0,
                capital: false,
                spaced: false,
            };
            numerals::lemma_body_chars(plain);
            let body = numerals::body_text(plain);
            assert(body =~= numerals::digits(number, 10, false, false));
            assert forall|k: int| 0 <= k < text.len() implies numerals::is_word_char(
                #[trigger] text[k],
            ) by {
                if k >= 1 {
                    assert(text[k] == body[k - 1]);
                    reveal(numerals::is_body_char);
                }
            }
        },
        _ => {},
    }
}

/// A number is read as that number.
proof fn lemma_number(s: Seq<char>, i: int, number: Numeral)
    requires
        numerals::stands_at(s, i, numerals::numeral_text(number)),
        numerals::word_stops(s, i + numerals::numeral_text(number).len()),
    ensures
        grammar::immediate_at(s, i) matches Some((tree, end)) && {
            &&& end == i + numerals::numeral_text(number).len()
            &&& builder::immediate_of(tree) == numerals::numeral_value(number)
            &&& tree.rule == Rule::ImmediateBin || tree.rule == Rule::ImmediateHex || tree.rule
                == Rule::ImmediateDec
        },
{
    let head = numerals::prefix(number.base);
    let body = numerals::body_text(number);
    let text = numerals::numeral_text(number);
    let start = i + head.len();
    let end = i + text.len();
    numerals::lemma_stands(s, i, head, body);
    numerals::lemma_body_chars(number);
    numerals::lemma_body_value(number);
    lemma_value_chars(Value::Number(number));
    assert(value_text(Value::Number(number)) == text);
    numerals::lemma_word(s, i, text);
    reveal(numerals::is_body_char);
    assert forall|k: int| start <= k < end implies {
        &&& #[trigger] s[k] == body[k - start]
        &&& numerals::is_body_char(s[k], numerals::radix(number.base))
    } by {
        numerals::lemma_standing_char(s, start, body, k - start);
        assert(numerals::is_body_char(body[k - start], numerals::radix(number.base)));
    }
    assert(s[start] == body[0]);
    match number.base {
        Base::Decimal => {
            assert(lexer::is_number_body(s, i, end, 10));
            if i + 1 < s.len() {
                if end > i + 1 {
                    assert(numerals::is_body_char(s[i + 1], 10));
                } else {
                    assert(!numerals::is_word_char(s[i + 1]));
                }
                assert(s[i + 1] != 'b' && s[i + 1] != 'x');
            }
            assert(s[i] != '\'');
        },
        Base::Binary => {
            numerals::lemma_standing_char(s, i, head, 0);
            numerals::lemma_standing_char(s, i, head, 1);
            assert(lexer::is_number_body(s, i + 2, end, 2));
            assert(s.subrange(i + 2, end) =~= body);
        },
        Base::Hexadecimal => {
            numerals::lemma_standing_char(s, i, head, 0);
            numerals::lemma_standing_char(s, i, head, 1);
            assert(lexer::is_number_body(s, i + 2, end, 16));
            assert(s.subrange(i + 2, end) =~= body);
        },
    }
    assert(s.subrange(start, end) =~= body);
}

/// A number or a character in quotes is read as such.
pub proof fn lemma_immediate(s: Seq<char>, i: int, value: Value)
    requires
        is_number(value),
        numerals::stands_at(s, i, value_text(value)),
        value is Letter || numerals::word_stops(s, i + value_text(value).len()),
    ensures
        grammar::immediate_at(s, i) matches Some((tree, end)) && {
            &&& end == i + value_text(value).len()
            &&& builder::immediate_of(tree) == immediate_meaning(value)
            &&& tree.rule == Rule::ImmediateBin || tree.rule == Rule::ImmediateHex || tree.rule
                == Rule::ImmediateDec || tree.rule == Rule::ImmediateChar
        },
{
    match value {
        Value::Number(number) => {
            lemma_number(s, i, number);
        },
        Value::Letter(c) => {
            let text = value_text(value);
            numerals::lemma_standing_char(s, i, text, 0);
            numerals::lemma_standing_char(s, i, text, 1);
            numerals::lemma_standing_char(s, i, text, 2);
            assert(s.subrange(i + 1, i + 2)[0] == c);
        },
        _ => {},
    }
}

/// A register is read as that register, and is no number.
pub proof fn lemma_register(s: Seq<char>, i: int, value: Value)
    requires
        is_register(value),
        numerals::stands_at(s, i, value_text(value)),
        numerals::word_stops(s, i + value_text(value).len()),
    ensures
        grammar::immediate_at(s, i) is None,
        grammar::register_at(s, i) matches Some((tree, end)) && {
            &&& end == i + value_text(value).len()
            &&& tree.rule == Rule::Register
            &&& builder::register_of(tree) == register_meaning(value)
        },
{
    let text = value_text(value);
    let end = i + text.len();
    lemma_value_chars(value);
    numerals::lemma_word(s, i, text);
    numerals::lemma_standing_char(s, i, text, 0);
    assert(text[0] == 'r');
    assert(!lexer::is_number_body(s, i, end, 10)) by {
        assert(s[i] == 'r');
    }
    reveal_strlit("sp");
    reveal_strlit("esp");
    reveal_strlit("fp");
    let num = s.subrange(i + 1, end);
    assert(num =~= text.drop_first()) by {
        assert forall|k: int| 0 <= k < num.len() implies num[k] == text.drop_first()[k] by {
            numerals::lemma_standing_char(s, i, text, k + 1);
        }
    }
    match value {
        Value::Register(number) => {
            let plain = Numeral {
                value: number,
                base: Base::Decimal,
                zeros: 0,
                capital: false,
                spaced: false,
            };
            let body = numerals::body_text(plain);
            numerals::lemma_body_chars(plain);
            numerals::lemma_body_value(plain);
            assert(body =~= numerals::digits(number, 10, false, false));
            assert(num =~= body);
            assert(lexer::is_digits(s, i + 1, end)) by {
                assert forall|k: int| i + 1 <= k < end implies '0' <= #[trigger] s[k] && s[k]
                    <= '9' by {
                    assert(s[k] == num[k - i - 1]);
                    assert('0' <= body[k - i - 1] && body[k - i - 1] <= '9');
                }
            }
            assert(num[0] == body[0]);
            assert(num != "sp"@ && num != "esp"@ && num != "fp"@);
        },
        Value::StackPointer => {
            assert(num =~= "sp"@);
        },
        Value::ExceptionStackPointer => {
            assert(num =~= "esp"@);
            assert(num != "sp"@);
        },
        Value::FramePointer => {
            assert(num =~= "fp"@);
            assert(num[0] != "sp"@[0]);
            assert(num.len() != "esp"@.len());
        },
        _ => {},
    }
}

/// A name that is none of a register is read as a label.
pub proof fn lemma_label(s: Seq<char>, i: int, name: Seq<char>)
    requires
        is_name(name),
        numerals::stands_at(s, i, name),
        numerals::word_stops(s, i + name.len()),
    ensures
        grammar::immediate_at(s, i) is None,
        !is_register_name(name) ==> grammar::register_at(s, i) is None,
        grammar::label_name_at(s, i) == Some(
            (
                grammar::leaf(Rule::LabelName, s, i, i + name.len()),
                i + name.len(),
            ),
        ),
        lexer::word_at(s, i) == name,
        lexer::word_end(s, i) == i + name.len(),
        s[i] == name[0],
{
    let end = i + name.len();
    numerals::lemma_word(s, i, name);
    numerals::lemma_standing_char(s, i, name, 0);
    assert(numerals::is_word_char(name[0]));
    assert(!(lexer::is_number_body(s, i, end, 10) && s[i] != '_'));
    reveal_strlit("sp");
    reveal_strlit("esp");
    reveal_strlit("fp");
    let num = s.subrange(i + 1, end);
    if name[0] == 'r' && !is_register_name(name) {
        assert(num =~= name.drop_first()) by {
            assert forall|k: int| 0 <= k < num.len() implies num[k] == name.drop_first()[k] by {
                numerals::lemma_standing_char(s, i, name, k + 1);
            }
        }
        assert(name =~= seq!['r'] + num);
        if num == "sp"@ {
            assert(name =~= seq!['r', 's', 'p']);
        }
        if num == "esp"@ {
            assert(name =~= seq!['r', 'e', 's', 'p']);
        }
        if num == "fp"@ {
            assert(name =~= seq!['r', 'f', 'p']);
        }
        if lexer::is_digits(s, i + 1, end) {
            assert forall|k: int| 1 <= k < name.len() implies '0' <= #[trigger] name[k] && name[k]
                <= '9' by {
                numerals::lemma_standing_char(s, i, name, k);
                assert('0' <= s[i + k] && s[i + k] <= '9');
            }
            assert(is_register_name(name));
        }
    }
}

/// A value is read as what it stands for.
pub proof fn lemma_value(s: Seq<char>, i: int, value: Value, size: Size)
    requires
        is_value(value),
        numerals::stands_at(s, i, value_text(value)),
        value is Letter || numerals::word_stops(s, i + value_text(value).len()),
    ensures
        grammar::value_at(s, i) matches Some((tree, end)) && {
            &&& end == i + value_text(value).len()
            &&& tree.rule == Rule::OperandValue
            &&& builder::operand_of(tree, false, size) == value_meaning(value, size)
            &&& tree.inner.len() == 1
            &&& builder::value_of(tree.inner[0], true, size) == memory_meaning(value)
        },
{
    if is_number(value) {
        lemma_immediate(s, i, value);
    } else if is_register(value) {
        lemma_register(s, i, value);
    } else {
        let name = value->Label_0;
        lemma_label(s, i, name);
        assert(s.subrange(i, i + name.len()) == name);
    }
}

/// An operand as it is written.
pub enum Operand {
    Plain(Value),
    Memory(Value),
    Offset { base: Value, offset: Value },
}

/// Whether an operand can be written: an offset is a number, added to a register.
pub open spec fn is_operand(operand: Operand) -> bool {
    match operand {
        Operand::Plain(value) => is_value(value),
        Operand::Memory(value) => is_value(value),
        Operand::Offset { base, offset } => is_register(base) && is_number(offset),
    }
}

/// The text of an operand, with the same gap wherever there may be one.
pub open spec fn operand_text(operand: Operand, gap: Seq<Gap>) -> Seq<char> {
    let g = numerals::gap_text(gap);
    match operand {
        Operand::Plain(value) => value_text(value),
        Operand::Memory(value) => seq!['['] + (g + (value_text(value) + (g + seq![']']))),
        Operand::Offset { base, offset } => seq!['['] + (g + (value_text(base) + (g + (seq!['+']
            + (g + (value_text(offset) + (g + seq![']']))))))),
    }
}

/// What an operand stands for in an instruction of the given size. An offset is a byte,
/// and one of 0 is none.
pub open spec fn operand_meaning(operand: Operand, size: Size) -> Result<NodeView, ParseError> {
    match operand {
        Operand::Plain(value) => value_meaning(value, size),
        Operand::Memory(value) => memory_meaning(value),
        Operand::Offset { base, offset } => match register_meaning(base) {
            Err(error) => Err(error),
            Ok(r) => match immediate_meaning(offset) {
                Err(error) => Err(error),
                Ok(n) => if n == 0 {
                    Ok(NodeView::RegisterPointer(r))
                } else {
                    Ok(NodeView::RegisterPointerOffset(r, (n % 256) as u8))
                },
            },
        },
    }
}

/// A value in a gap is found, and ends there.
pub proof fn lemma_value_in_gap(
    s: Seq<char>,
    i: int,
    value: Value,
    gap: Seq<Gap>,
    close: char,
) -> (at: int)
    requires
        is_value(value),
        numerals::is_gaps(gap),
        !numerals::is_word_char(close),
        close != ' ' && close != '\t' && close != '\r' && close != '\n' && close != ';',
        numerals::stands_at(
            s,
            i,
            numerals::gap_text(gap) + (value_text(value) + (numerals::gap_text(gap) + seq![close])),
        ),
    ensures
        at == i + numerals::gap_text(gap).len(),
        lexer::skip_blanks(s, i) == at,
        numerals::stands_at(s, at, value_text(value)),
        numerals::word_stops(s, at + value_text(value).len()),
        lexer::skip_blanks(s, at + value_text(value).len()) == at + value_text(value).len()
            + numerals::gap_text(gap).len(),
        lexer::symbol_at(
            s,
            at + value_text(value).len() + numerals::gap_text(gap).len(),
            close,
        ),
        s[at] == value_text(value)[0],
{
    let g = numerals::gap_text(gap);
    let text = value_text(value);
    let at = i + g.len();
    numerals::lemma_stands(s, i, g, text + (g + seq![close]));
    numerals::lemma_stands(s, at, text, g + seq![close]);
    numerals::lemma_stands(s, at + text.len(), g, seq![close]);
    lemma_value_chars(value);
    numerals::lemma_standing_char(s, at, text, 0);
    numerals::lemma_standing_char(s, at + text.len() + g.len(), seq![close], 0);
    if gap.len() == 0 {
        assert(g.len() == 0);
    }
    numerals::lemma_gap_stops_word(s, at + text.len(), gap);
    numerals::lemma_gap(s, i, gap);
    numerals::lemma_gap(s, at + text.len(), gap);
    at
}

/// An operand is read as what it stands for.
pub proof fn lemma_operand(
    s: Seq<char>,
    i: int,
    operand: Operand,
    gap: Seq<Gap>,
    size: Size,
)
    requires
        is_operand(operand),
        numerals::is_gaps(gap),
        numerals::stands_at(s, i, operand_text(operand, gap)),
        operand is Plain ==> numerals::word_stops(s, i + operand_text(operand, gap).len()),
    ensures
        grammar::operand_at(s, i) matches Some((tree, end)) && {
            &&& end == i + operand_text(operand, gap).len()
            &&& tree.rule == Rule::Operand
            &&& statements::statement_of(tree, size) == statements::with_size(
                operand_meaning(operand, size),
                size,
            )
        },
{
    let g = numerals::gap_text(gap);
    let text = operand_text(operand, gap);
    match operand {
        Operand::Plain(value) => {
            lemma_value_chars(value);
            numerals::lemma_standing_char(s, i, text, 0);
            lemma_value(s, i, value, size);
            let (tree, end) = grammar::operand_at(s, i)->0;
            assert(tree.inner[0].rule == Rule::OperandValue);
        },
        Operand::Memory(value) => {
            let rest = g + (value_text(value) + (g + seq![']']));
            numerals::lemma_stands(s, i, seq!['['], rest);
            numerals::lemma_standing_char(s, i, seq!['['], 0);
            let at = lemma_value_in_gap(s, i + 1, value, gap, ']');
            lemma_value(s, at, value, size);
            if is_register(value) {
                lemma_register(s, at, value);
            } else if is_number(value) {
                lemma_immediate(s, at, value);
                lemma_number_is_no_register(s, at, value);
            } else {
                lemma_label(s, at, value->Label_0);
            }
            let (tree, end) = grammar::operand_at(s, i)->0;
            assert(tree.inner[0].rule == Rule::OperandValuePtr);
            assert(end == i + text.len());
        },
        Operand::Offset { base, offset } => {
            let second = g + (value_text(offset) + (g + seq![']']));
            let first = g + (value_text(base) + (g + seq!['+']));
            let rest = g + (value_text(base) + (g + (seq!['+'] + second)));
            numerals::lemma_stands(s, i, seq!['['], rest);
            numerals::lemma_standing_char(s, i, seq!['['], 0);
            assert(rest =~= first + second);
            numerals::lemma_stands(s, i + 1, first, second);
            let at = lemma_value_in_gap(s, i + 1, base, gap, '+');
            let plus = at + value_text(base).len() + g.len();
            assert(i + 1 + first.len() == plus + 1);
            let place = lemma_value_in_gap(s, plus + 1, offset, gap, ']');
            lemma_register(s, at, base);
            lemma_immediate(s, place, offset);
            let (tree, end) = grammar::operand_at(s, i)->0;
            let part = tree.inner[0];
            assert(part.rule == Rule::OperandValuePtr);
            assert(part.child(1) == Some(part.inner[1]));
            assert(part.child(0) == Some(part.inner[0]));
            assert(part.inner[1].child(0) == Some(part.inner[1].inner[0]));
            assert(end == i + text.len());
        },
    }
}

/// A number does not start like a register.
pub proof fn lemma_number_is_no_register(s: Seq<char>, i: int, value: Value)
    requires
        is_number(value),
        numerals::stands_at(s, i, value_text(value)),
    ensures
        grammar::register_at(s, i) is None,
{
    lemma_value_chars(value);
    numerals::lemma_standing_char(s, i, value_text(value), 0);
    match value {
        Value::Number(number) => {
            numerals::lemma_body_chars(number);
            reveal(numerals::is_body_char);
            if number.base is Decimal {
                assert(value_text(value)[0] == numerals::body_text(number)[0]);
                assert(numerals::is_body_char(numerals::body_text(number)[0], 10));
            }
        },
        _ => {},
    }
}

} // verus!
