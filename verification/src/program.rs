//! The statements of a program, and the program as a whole.

use crate::ast::{AstNode, NodeView, Size};
use crate::builder::ParseError;
use crate::grammar::{
    instruction, label_name, make_double, make_leaf, make_single, make_wrap, value, word,
};
use crate::lexer::{end_of_word, find_symbol, is_symbol, skip};
use crate::statements::build_program;
use crate::text::{chars_of, text_is};
use crate::tree::{Pair, Rule, Tree};
use crate::{grammar, lexer, statements, tree};
use vstd::prelude::*;

verus! {

/// The rule for the word that gives the kind of a label.
pub open spec fn kind_rule(word: Seq<char>) -> Option<Rule> {
    if word == "extern"@ {
        Some(Rule::LabelExternal)
    } else if word == "global"@ {
        Some(Rule::LabelGlobal)
    } else {
        None
    }
}

/// A label with its kind: the kind, the name and a colon.
pub open spec fn marked_label_at(s: Seq<char>, i: int) -> Option<(Tree, int)> {
    let end = lexer::word_end(s, i);
    match (kind_rule(lexer::word_at(s, i)), grammar::label_name_at(s, lexer::skip_blanks(s, end))) {
        (Some(rule), Some((name, j))) => {
            let colon = lexer::skip_blanks(s, j);
            if lexer::symbol_at(s, colon, ':') {
                let kind = grammar::node(
                    Rule::LabelKind,
                    s,
                    i,
                    end,
                    seq![grammar::leaf(rule, s, i, end)],
                );
                Some((grammar::node(Rule::Label, s, i, colon + 1, seq![kind, name]), colon + 1))
            } else {
                None
            }
        },
        _ => None,
    }
}

/// A label without a kind: the name and a colon.
pub open spec fn plain_label_at(s: Seq<char>, i: int) -> Option<(Tree, int)> {
    match grammar::label_name_at(s, i) {
        Some((name, j)) => {
            let colon = lexer::skip_blanks(s, j);
            if lexer::symbol_at(s, colon, ':') {
                Some((grammar::node(Rule::Label, s, i, colon + 1, seq![name]), colon + 1))
            } else {
                None
            }
        },
        None => None,
    }
}

/// The definition of a label.
pub open spec fn label_at(s: Seq<char>, i: int) -> Option<(Tree, int)> {
    if marked_label_at(s, i) is Some {
        marked_label_at(s, i)
    } else {
        plain_label_at(s, i)
    }
}

/// A constant: its name, a colon and its value.
pub open spec fn constant_at(s: Seq<char>, i: int) -> Option<(Tree, int)> {
    let start = lexer::skip_blanks(s, lexer::word_end(s, i));
    if lexer::word_at(s, i) == "const"@ {
        match grammar::wrap(Rule::ConstantName, s, start, grammar::label_name_at(s, start)) {
            Some((name, j)) => {
                let colon = lexer::skip_blanks(s, j);
                if lexer::symbol_at(s, colon, ':') {
                    match grammar::value_at(s, lexer::skip_blanks(s, colon + 1)) {
                        Some((value, k)) => Some(
                            (grammar::node(Rule::Constant, s, i, k, seq![name, value]), k),
                        ),
                        None => None,
                    }
                } else {
                    None
                }
            },
            None => None,
        }
    } else {
        None
    }
}

/// Text between double quotes.
pub open spec fn quoted_at(s: Seq<char>, i: int) -> Option<(Tree, int)> {
    let end = lexer::find_char(s, i + 1, '"');
    if lexer::symbol_at(s, i, '"') && end < s.len() {
        Some(
            (
                grammar::node(
                    Rule::QuotedText,
                    s,
                    i,
                    end + 1,
                    seq![grammar::leaf(Rule::BodyText, s, i + 1, end)],
                ),
                end + 1,
            ),
        )
    } else {
        None
    }
}

/// The rule for the word that says what kind of data follows.
pub open spec fn data_rule(word: Seq<char>) -> Option<Rule> {
    if word == "8"@ {
        Some(Rule::DataByte)
    } else if word == "16"@ {
        Some(Rule::DataHalf)
    } else if word == "32"@ {
        Some(Rule::DataWord)
    } else if word == "str"@ {
        Some(Rule::DataStr)
    } else if word == "strz"@ {
        Some(Rule::DataStrZero)
    } else if word == "fill"@ {
        Some(Rule::DataFill)
    } else {
        None
    }
}

/// A value and a count, with a comma between them.
pub open spec fn fill_at(s: Seq<char>, i: int, start: int) -> Option<(Tree, int)> {
    match grammar::value_at(s, start) {
        Some((value, j)) => {
            let comma = lexer::skip_blanks(s, j);
            if lexer::symbol_at(s, comma, ',') {
                match grammar::value_at(s, lexer::skip_blanks(s, comma + 1)) {
                    Some((count, k)) => Some(
                        (grammar::node(Rule::DataFill, s, i, k, seq![value, count]), k),
                    ),
                    None => None,
                }
            } else {
                None
            }
        },
        None => None,
    }
}

/// A piece of data: its kind after a dot, and what it holds.
pub open spec fn data_at(s: Seq<char>, i: int) -> Option<(Tree, int)> {
    let dot = lexer::word_end(s, i);
    let start = lexer::skip_blanks(s, lexer::word_end(s, dot + 1));
    if lexer::word_at(s, i) == "data"@ && lexer::symbol_at(s, dot, '.') {
        match data_rule(lexer::word_at(s, dot + 1)) {
            Some(rule) => grammar::wrap(
                Rule::Data,
                s,
                i,
                if rule == Rule::DataFill {
                    fill_at(s, i, start)
                } else if rule == Rule::DataStr || rule == Rule::DataStrZero {
                    grammar::wrap(rule, s, i, quoted_at(s, start))
                } else {
                    grammar::wrap(rule, s, i, grammar::value_at(s, start))
                },
            ),
            None => None,
        }
    } else {
        None
    }
}

/// The switch that turns optimization on or off.
pub open spec fn opt_at(s: Seq<char>, i: int) -> Option<(Tree, int)> {
    let end = lexer::word_end(s, i);
    if lexer::word_at(s, i) == "opton"@ || lexer::word_at(s, i) == "optoff"@ {
        Some(
            (
                grammar::node(
                    Rule::Opt,
                    s,
                    i,
                    end,
                    seq![grammar::leaf(Rule::OptSwitch, s, i, end)],
                ),
                end,
            ),
        )
    } else {
        None
    }
}

/// A new origin, with or without padding up to it.
pub open spec fn origin_at(s: Seq<char>, i: int) -> Option<(Tree, int)> {
    let end = lexer::word_end(s, i);
    let padded = lexer::symbol_at(s, end, '.') && lexer::word_at(s, end + 1) == "pad"@;
    if lexer::word_at(s, i) == "org"@ {
        grammar::wrap(
            Rule::Origin,
            s,
            i,
            if padded {
                grammar::wrap(
                    Rule::OriginPadding,
                    s,
                    i,
                    grammar::value_at(s, lexer::skip_blanks(s, lexer::word_end(s, end + 1))),
                )
            } else {
                grammar::wrap(
                    Rule::OriginNoPadding,
                    s,
                    i,
                    grammar::value_at(s, lexer::skip_blanks(s, end)),
                )
            },
        )
    } else {
        None
    }
}

/// The rule for the word that asks for a binary file.
pub open spec fn binary_rule(word: Seq<char>) -> Option<Rule> {
    if word == "include_bin"@ {
        Some(Rule::IncludeBin)
    } else if word == "include_bin_optional"@ {
        Some(Rule::IncludeBinOptional)
    } else {
        None
    }
}

/// A binary file, by its path in quotes.
pub open spec fn binary_at(s: Seq<char>, i: int) -> Option<(Tree, int)> {
    if lexer::symbol_at(s, i, '#') {
        match binary_rule(lexer::word_at(s, i + 1)) {
            Some(rule) => grammar::wrap(
                rule,
                s,
                i,
                quoted_at(s, lexer::skip_blanks(s, lexer::word_end(s, i + 1))),
            ),
            None => None,
        }
    } else {
        None
    }
}

/// A statement.
#[verifier::opaque]
pub open spec fn statement_at(s: Seq<char>, i: int) -> Option<(Tree, int)> {
    if label_at(s, i) is Some {
        label_at(s, i)
    } else if constant_at(s, i) is Some {
        constant_at(s, i)
    } else if data_at(s, i) is Some {
        data_at(s, i)
    } else if opt_at(s, i) is Some {
        opt_at(s, i)
    } else if origin_at(s, i) is Some {
        origin_at(s, i)
    } else if binary_at(s, i) is Some {
        binary_at(s, i)
    } else {
        grammar::instruction_at(s, i)
    }
}

/// A statement is not empty and stays within the text.
pub proof fn lemma_statement_advances(s: Seq<char>, i: int)
    requires
        0 <= i <= s.len(),
    ensures
        grammar::advances(statement_at(s, i), i, s.len()),
{
    reveal(statement_at);
    let end = lexer::word_end(s, i);
    lexer::lemma_word_end(s, i);
    grammar::lemma_instruction_advances(s, i);
    lemma_label_advances(s, i);
    lemma_constant_advances(s, i);
    lemma_data_advances(s, i);
    lemma_origin_advances(s, i);
    if lexer::symbol_at(s, i, '#') {
        lexer::lemma_word_end(s, i + 1);
        lemma_quoted_advances(s, lexer::word_end(s, i + 1));
    }
    reveal_strlit("opton");
    reveal_strlit("optoff");
    assert(lexer::word_at(s, i).len() == end - i);
}

proof fn lemma_label_advances(s: Seq<char>, i: int)
    requires
        0 <= i <= s.len(),
    ensures
        grammar::advances(label_at(s, i), i, s.len()),
{
    let end = lexer::word_end(s, i);
    lexer::lemma_word_end(s, i);
    lexer::lemma_skip_blanks(s, end);
    grammar::lemma_label_name_advances(s, lexer::skip_blanks(s, end));
    grammar::lemma_label_name_advances(s, i);
    if let Some((_, j)) = grammar::label_name_at(s, lexer::skip_blanks(s, end)) {
        lexer::lemma_skip_blanks(s, j);
    }
    if let Some((_, j)) = grammar::label_name_at(s, i) {
        lexer::lemma_skip_blanks(s, j);
    }
}

proof fn lemma_constant_advances(s: Seq<char>, i: int)
    requires
        0 <= i <= s.len(),
    ensures
        grammar::advances(constant_at(s, i), i, s.len()),
{
    lexer::lemma_word_end(s, i);
    lexer::lemma_skip_blanks(s, lexer::word_end(s, i));
    let start = lexer::skip_blanks(s, lexer::word_end(s, i));
    grammar::lemma_label_name_advances(s, start);
    if let Some((_, j)) = grammar::label_name_at(s, start) {
        lexer::lemma_skip_blanks(s, j);
        let colon = lexer::skip_blanks(s, j);
        if lexer::symbol_at(s, colon, ':') {
            grammar::lemma_value_advances(s, colon + 1);
        }
    }
}

proof fn lemma_quoted_advances(s: Seq<char>, i: int)
    requires
        0 <= i <= s.len(),
    ensures
        i <= lexer::skip_blanks(s, i) <= s.len(),
        grammar::advances(quoted_at(s, lexer::skip_blanks(s, i)), i, s.len()),
{
    lexer::lemma_skip_blanks(s, i);
    let start = lexer::skip_blanks(s, i);
    if lexer::symbol_at(s, start, '"') {
        lexer::lemma_find_char(s, start + 1, '"');
    }
}

proof fn lemma_data_advances(s: Seq<char>, i: int)
    requires
        0 <= i <= s.len(),
    ensures
        grammar::advances(data_at(s, i), i, s.len()),
{
    lexer::lemma_word_end(s, i);
    let dot = lexer::word_end(s, i);
    if lexer::symbol_at(s, dot, '.') {
        lexer::lemma_word_end(s, dot + 1);
        let end = lexer::word_end(s, dot + 1);
        let start = lexer::skip_blanks(s, end);
        grammar::lemma_value_advances(s, end);
        lemma_quoted_advances(s, end);
        if let Some((_, j)) = grammar::value_at(s, start) {
            lexer::lemma_skip_blanks(s, j);
            let comma = lexer::skip_blanks(s, j);
            if lexer::symbol_at(s, comma, ',') {
                grammar::lemma_value_advances(s, comma + 1);
            }
        }
    }
}

proof fn lemma_origin_advances(s: Seq<char>, i: int)
    requires
        0 <= i <= s.len(),
    ensures
        grammar::advances(origin_at(s, i), i, s.len()),
{
    lexer::lemma_word_end(s, i);
    let end = lexer::word_end(s, i);
    grammar::lemma_value_advances(s, end);
    if lexer::symbol_at(s, end, '.') {
        lexer::lemma_word_end(s, end + 1);
        grammar::lemma_value_advances(s, lexer::word_end(s, end + 1));
    }
}

/// The statements from `i` on, or the place where no statement matches.
pub open spec fn statements_at(s: Seq<char>, i: int) -> Result<Seq<Tree>, int>
    decreases s.len() - i,
{
    let start = lexer::skip_blanks(s, i);
    if !(0 <= i < s.len()) || start >= s.len() {
        Ok(seq![grammar::leaf(Rule::EndOfInput, s, s.len() as int, s.len() as int)])
    } else {
        match statement_at(s, start) {
            Some((tree, j)) => {
                proof {
                    lexer::lemma_skip_blanks(s, i);
                    lemma_statement_advances(s, start);
                }
                preceded(seq![tree], statements_at(s, j))
            },
            None => Err(start),
        }
    }
}

/// The trees `first` and those that follow.
pub open spec fn preceded(first: Seq<Tree>, rest: Result<Seq<Tree>, int>) -> Result<
    Seq<Tree>,
    int,
> {
    match rest {
        Ok(trees) => Ok(first + trees),
        Err(place) => Err(place),
    }
}

/// The statements of the program with the text `s`.
pub open spec fn parsed(s: Seq<char>) -> Result<Seq<NodeView>, ParseError> {
    match statements_at(s, 0) {
        Ok(parts) => statements::program_of(parts, Size::Word),
        Err(place) => Err(ParseError::Syntax(place as usize)),
    }
}

/// Where a text is no program, no statement matches at the place that is reported.
pub proof fn law_reported_place_has_no_statement(s: Seq<char>, i: int)
    requires
        0 <= i <= s.len(),
    ensures
        statements_at(s, i) matches Err(place) ==> {
            &&& i <= place < s.len()
            &&& lexer::skip_blanks(s, place) == place
            &&& statement_at(s, place) is None
        },
    decreases s.len() - i,
{
    lexer::lemma_skip_blanks(s, i);
    let start = lexer::skip_blanks(s, i);
    if i < s.len() && start < s.len() {
        lemma_statement_advances(s, start);
        if let Some((_, j)) = statement_at(s, start) {
            law_reported_place_has_no_statement(s, j);
        }
    }
}

/// Blanks and comments before a statement do not matter.
pub proof fn law_blanks_do_not_matter(s: Seq<char>, i: int)
    requires
        0 <= i <= s.len(),
    ensures
        statements_at(s, lexer::skip_blanks(s, i)) == statements_at(s, i),
{
    lexer::lemma_skip_blanks(s, i);
}

/// The definition of a label.
fn label(chars: &Vec<char>, i: usize) -> (result: Option<(Pair, usize)>)
    requires
        i <= chars@.len(),
    ensures
        grammar::found(result) == label_at(chars@, i as int),
        grammar::moved_on(result, i, chars@.len()),
{
    let end = end_of_word(chars, i);
    let first = word(chars, i);
    let rule = if text_is(&first, "extern") {
        Some(Rule::LabelExternal)
    } else if text_is(&first, "global") {
        Some(Rule::LabelGlobal)
    } else {
        None
    };
    match rule {
        Some(kind) => match label_name(chars, skip(chars, end)) {
            Some((name, j)) => {
                let colon = skip(chars, j);
                if is_symbol(chars, colon, ':') {
                    let mark = make_leaf(kind, chars, i, end);
                    let part = make_single(Rule::LabelKind, chars, i, end, mark);
                    return Some(
                        (make_double(Rule::Label, chars, i, colon + 1, part, name), colon + 1),
                    );
                }
            },
            None => {},
        },
        None => {},
    }
    match label_name(chars, i) {
        Some((name, j)) => {
            let colon = skip(chars, j);
            if is_symbol(chars, colon, ':') {
                Some((make_single(Rule::Label, chars, i, colon + 1, name), colon + 1))
            } else {
                None
            }
        },
        None => None,
    }
}

/// A constant: its name, a colon and its value.
fn constant(chars: &Vec<char>, i: usize) -> (result: Option<(Pair, usize)>)
    requires
        i <= chars@.len(),
    ensures
        grammar::found(result) == constant_at(chars@, i as int),
        grammar::moved_on(result, i, chars@.len()),
{
    if !text_is(&word(chars, i), "const") {
        return None;
    }
    let start = skip(chars, end_of_word(chars, i));
    match make_wrap(Rule::ConstantName, chars, start, label_name(chars, start)) {
        Some((name, j)) => {
            let colon = skip(chars, j);
            if is_symbol(chars, colon, ':') {
                match value(chars, skip(chars, colon + 1)) {
                    Some((address, k)) => Some(
                        (make_double(Rule::Constant, chars, i, k, name, address), k),
                    ),
                    None => None,
                }
            } else {
                None
            }
        },
        None => None,
    }
}

/// Text between double quotes.
fn quoted(chars: &Vec<char>, i: usize) -> (result: Option<(Pair, usize)>)
    requires
        i <= chars@.len(),
    ensures
        grammar::found(result) == quoted_at(chars@, i as int),
        grammar::moved_on(result, i, chars@.len()),
{
    if !is_symbol(chars, i, '"') {
        return None;
    }
    let end = find_symbol(chars, i + 1, '"');
    if end < chars.len() {
        let body = make_leaf(Rule::BodyText, chars, i + 1, end);
        Some((make_single(Rule::QuotedText, chars, i, end + 1, body), end + 1))
    } else {
        None
    }
}

/// The rule for the word that says what kind of data follows.
fn rule_of_data(name: &String) -> (rule: Option<Rule>)
    ensures
        rule == data_rule(name@),
{
    if text_is(name, "8") {
        Some(Rule::DataByte)
    } else if text_is(name, "16") {
        Some(Rule::DataHalf)
    } else if text_is(name, "32") {
        Some(Rule::DataWord)
    } else if text_is(name, "str") {
        Some(Rule::DataStr)
    } else if text_is(name, "strz") {
        Some(Rule::DataStrZero)
    } else if text_is(name, "fill") {
        Some(Rule::DataFill)
    } else {
        None
    }
}

/// A value and a count, with a comma between them.
fn fill(chars: &Vec<char>, i: usize, start: usize) -> (result: Option<(Pair, usize)>)
    requires
        i <= start <= chars@.len(),
    ensures
        grammar::found(result) == fill_at(chars@, i as int, start as int),
        grammar::moved_on(result, i, chars@.len()),
{
    match value(chars, start) {
        Some((content, j)) => {
            let comma = skip(chars, j);
            if is_symbol(chars, comma, ',') {
                match value(chars, skip(chars, comma + 1)) {
                    Some((count, k)) => Some(
                        (make_double(Rule::DataFill, chars, i, k, content, count), k),
                    ),
                    None => None,
                }
            } else {
                None
            }
        },
        None => None,
    }
}

/// A piece of data: its kind after a dot, and what it holds.
fn data(chars: &Vec<char>, i: usize) -> (result: Option<(Pair, usize)>)
    requires
        i <= chars@.len(),
    ensures
        grammar::found(result) == data_at(chars@, i as int),
        grammar::moved_on(result, i, chars@.len()),
{
    if !text_is(&word(chars, i), "data") {
        return None;
    }
    let dot = end_of_word(chars, i);
    if !is_symbol(chars, dot, '.') {
        return None;
    }
    match rule_of_data(&word(chars, dot + 1)) {
        Some(rule) => {
            let start = skip(chars, end_of_word(chars, dot + 1));
            let part = if rule == Rule::DataFill {
                fill(chars, i, start)
            } else if rule == Rule::DataStr || rule == Rule::DataStrZero {
                make_wrap(rule, chars, i, quoted(chars, start))
            } else {
                make_wrap(rule, chars, i, value(chars, start))
            };
            make_wrap(Rule::Data, chars, i, part)
        },
        None => None,
    }
}

/// The switch that turns optimization on or off.
fn opt(chars: &Vec<char>, i: usize) -> (result: Option<(Pair, usize)>)
    requires
        i <= chars@.len(),
    ensures
        grammar::found(result) == opt_at(chars@, i as int),
        grammar::moved_on(result, i, chars@.len()),
{
    let end = end_of_word(chars, i);
    let name = word(chars, i);
    if text_is(&name, "opton") || text_is(&name, "optoff") {
        proof {
            reveal_strlit("opton");
            reveal_strlit("optoff");
            assert(name@.len() > 0);
        }
        let switch = make_leaf(Rule::OptSwitch, chars, i, end);
        Some((make_single(Rule::Opt, chars, i, end, switch), end))
    } else {
        None
    }
}

/// A new origin, with or without padding up to it.
fn origin(chars: &Vec<char>, i: usize) -> (result: Option<(Pair, usize)>)
    requires
        i <= chars@.len(),
    ensures
        grammar::found(result) == origin_at(chars@, i as int),
        grammar::moved_on(result, i, chars@.len()),
{
    if !text_is(&word(chars, i), "org") {
        return None;
    }
    let end = end_of_word(chars, i);
    let part = if is_symbol(chars, end, '.') && text_is(&word(chars, end + 1), "pad") {
        let start = skip(chars, end_of_word(chars, end + 1));
        make_wrap(Rule::OriginPadding, chars, i, value(chars, start))
    } else {
        make_wrap(Rule::OriginNoPadding, chars, i, value(chars, skip(chars, end)))
    };
    make_wrap(Rule::Origin, chars, i, part)
}

/// A binary file, by its path in quotes.
fn binary(chars: &Vec<char>, i: usize) -> (result: Option<(Pair, usize)>)
    requires
        i <= chars@.len(),
    ensures
        grammar::found(result) == binary_at(chars@, i as int),
        grammar::moved_on(result, i, chars@.len()),
{
    if !is_symbol(chars, i, '#') {
        return None;
    }
    let name = word(chars, i + 1);
    let rule = if text_is(&name, "include_bin") {
        Rule::IncludeBin
    } else if text_is(&name, "include_bin_optional") {
        Rule::IncludeBinOptional
    } else {
        return None;
    };
    make_wrap(rule, chars, i, quoted(chars, skip(chars, end_of_word(chars, i + 1))))
}

/// A statement.
fn statement(chars: &Vec<char>, i: usize) -> (result: Option<(Pair, usize)>)
    requires
        i <= chars@.len(),
    ensures
        grammar::found(result) == statement_at(chars@, i as int),
        grammar::moved_on(result, i, chars@.len()),
{
    proof {
        reveal(statement_at);
    }
    let result = label(chars, i);
    if result.is_some() {
        return result;
    }
    let result = constant(chars, i);
    if result.is_some() {
        return result;
    }
    let result = data(chars, i);
    if result.is_some() {
        return result;
    }
    let result = opt(chars, i);
    if result.is_some() {
        return result;
    }
    let result = origin(chars, i);
    if result.is_some() {
        return result;
    }
    let result = binary(chars, i);
    if result.is_some() {
        return result;
    }
    instruction(chars, i)
}

/// The statements of a program, or the place where no statement matches.
fn parse_statements(chars: &Vec<char>) -> (result: Result<Vec<Pair>, usize>)
    ensures
        match result {
            Ok(parts) => statements_at(chars@, 0) == Ok::<Seq<Tree>, int>(tree::trees(parts@)),
            Err(place) => statements_at(chars@, 0) == Err::<Seq<Tree>, int>(place as int),
        },
{
    let mut parts: Vec<Pair> = Vec::new();
    let mut i: usize = 0;
    let ghost whole = statements_at(chars@, 0);
    proof {
        assert(tree::trees(parts@) =~= Seq::empty());
        if whole is Ok {
            assert(Seq::empty() + whole->Ok_0 =~= whole->Ok_0);
        }
    }
    loop
        invariant
            i <= chars@.len(),
            whole == statements_at(chars@, 0),
            whole == preceded(tree::trees(parts@), statements_at(chars@, i as int)),
        decreases chars@.len() - i,
    {
        let start = skip(chars, i);
        let ghost done = tree::trees(parts@);
        if start == chars.len() {
            let end = make_leaf(Rule::EndOfInput, chars, start, start);
            let ghost last = end@;
            parts.push(end);
            assert(tree::trees(parts@) =~= done + seq![last]);
            return Ok(parts);
        }
        match statement(chars, start) {
            Some((pair, j)) => {
                let ghost view = pair@;
                parts.push(pair);
                proof {
                    assert(tree::trees(parts@) =~= done + seq![view]);
                    let rest = statements_at(chars@, j as int);
                    if rest is Ok {
                        assert(done + (seq![view] + rest->Ok_0) =~= (done + seq![view])
                            + rest->Ok_0);
                    }
                }
                i = j;
            },
            None => {
                return Err(start);
            },
        }
    }
}

/// Parses a program.
pub fn parse(source: &str) -> (result: Result<Vec<AstNode>, ParseError>)
    ensures
        statements::program_view(result) == parsed(source@),
{
    let chars = chars_of(source);
    match parse_statements(&chars) {
        Ok(parts) => build_program(&parts),
        Err(place) => Err(ParseError::Syntax(place)),
    }
}

} // verus!
