//! Texts that are no programs, and the places at which they are refused.

use crate::ast::{NodeView, Size};
use crate::builder::ParseError;
use crate::numerals::Gap;
use crate::operands::{Operand, Value};
use crate::processor::Operation;
use crate::source::Source;
use crate::tree::Tree;
use crate::words::When;
use crate::{builder, grammar, lexer, numerals, operands, program, source, words};
use vstd::prelude::*;

verus! {

/// Whether a character can start something behind a statement that is no part of it.
pub open spec fn starts_anew(c: char) -> bool {
    c != ' ' && c != '\t' && c != '\r' && c != '\n' && c != ';' && c != '.' && c != ',' && c != ':'
}

proof fn lemma_refused_behind(
    s: Seq<char>,
    i: int,
    sources: Seq<Source>,
    gap: Seq<Gap>,
    stop: int,
)
    requires
        numerals::is_gaps(gap),
        forall|k: int| 0 <= k < sources.len() ==> source::is_source(#[trigger] sources[k]),
        numerals::stands_at(s, i, source::lines_text(sources, gap)),
        stop == i + source::lines_text(sources, gap).len(),
        stop < s.len(),
        starts_anew(s[stop]),
        program::statement_at(s, stop) is None,
    ensures
        program::statements_at(s, i) == Err::<Seq<Tree>, int>(stop),
        0 <= i < s.len(),
        starts_anew(s[i]),
    decreases sources.len(),
{
    if sources.len() == 0 {
        assert(i == stop);
        assert(lexer::skip_blanks(s, i) == i);
    } else {
        let first = sources[0];
        let rest = sources.drop_first();
        let text = source::source_text(first, gap);
        let between = source::line_end(gap);
        let w = numerals::gap_text(between);
        let tail = source::lines_text(rest, gap);
        assert(source::is_source(sources[0]));
        assert forall|k: int| 0 <= k < rest.len() implies source::is_source(#[trigger] rest[k]) by {
            assert(rest[k] == sources[k + 1]);
        }
        numerals::lemma_stands(s, i, text, w + tail);
        let end = i + text.len();
        numerals::lemma_stands(s, end, w, tail);
        let next = end + w.len();
        lemma_refused_behind(s, next, rest, gap, stop);
        assert(numerals::is_gaps(between)) by {
            assert forall|k: int| 0 <= k < between.len() implies numerals::is_gap(
                #[trigger] between[k],
            ) by {
                if k > 0 {
                    assert(between[k] == gap[k - 1]);
                }
            }
        }
        numerals::lemma_gap(s, end, between);
        numerals::lemma_gap_stops_word(s, end, between);
        source::lemma_source_start(first, gap);
        numerals::lemma_standing_char(s, i, text, 0);
        assert(lexer::skip_blanks(s, i) == i);
        source::lemma_statement(s, i, first, gap, Size::Word);
        program::law_blanks_do_not_matter(s, end);
    }
}

/// The text of a program that goes wrong behind some statements.
pub open spec fn spoiled(sources: Seq<Source>, gap: Seq<Gap>, bad: Seq<char>) -> Seq<char> {
    numerals::gap_text(gap) + source::lines_text(sources, gap) + bad
}

/// The place at which it goes wrong.
pub open spec fn spoiled_at(sources: Seq<Source>, gap: Seq<Gap>) -> int {
    (numerals::gap_text(gap) + source::lines_text(sources, gap)).len() as int
}

proof fn lemma_bad_stands(sources: Seq<Source>, gap: Seq<Gap>, bad: Seq<char>)
    ensures
        numerals::stands_at(spoiled(sources, gap, bad), spoiled_at(sources, gap), bad),
        spoiled(sources, gap, bad).len() == spoiled_at(sources, gap) + bad.len(),
{
    let s = spoiled(sources, gap, bad);
    assert(s.subrange(spoiled_at(sources, gap), s.len() as int) =~= bad);
}

proof fn lemma_refused(sources: Seq<Source>, gap: Seq<Gap>, bad: Seq<char>)
    requires
        numerals::is_gaps(gap),
        forall|k: int| 0 <= k < sources.len() ==> source::is_source(#[trigger] sources[k]),
        bad.len() > 0,
        starts_anew(bad[0]),
        program::statement_at(spoiled(sources, gap, bad), spoiled_at(sources, gap)) is None,
    ensures
        program::parsed(spoiled(sources, gap, bad)) == Err::<Seq<NodeView>, ParseError>(
            ParseError::Syntax(spoiled_at(sources, gap) as usize),
        ),
{
    let s = spoiled(sources, gap, bad);
    let stop = spoiled_at(sources, gap);
    let g = numerals::gap_text(gap);
    let lines = source::lines_text(sources, gap);
    lemma_bad_stands(sources, gap, bad);
    numerals::lemma_standing_char(s, stop, bad, 0);
    assert(s.subrange(0, stop) =~= g + lines);
    numerals::lemma_stands(s, 0, g, lines);
    lemma_refused_behind(s, g.len() as int, sources, gap, stop);
    numerals::lemma_gap(s, 0, gap);
    program::law_blanks_do_not_matter(s, 0);
}

/// Behind statements, a character that starts no statement is refused.
pub proof fn law_stray_character_is_refused(
    sources: Seq<Source>,
    gap: Seq<Gap>,
    c: char,
    rest: Seq<char>,
)
    requires
        numerals::is_gaps(gap),
        forall|k: int| 0 <= k < sources.len() ==> source::is_source(#[trigger] sources[k]),
        starts_anew(c),
        c != '#',
        !numerals::is_word_char(c),
    ensures
        program::parsed(spoiled(sources, gap, seq![c] + rest)) == Err::<Seq<NodeView>, ParseError>(
            ParseError::Syntax(spoiled_at(sources, gap) as usize),
        ),
{
    let bad = seq![c] + rest;
    let s = spoiled(sources, gap, bad);
    let at = spoiled_at(sources, gap);
    lemma_bad_stands(sources, gap, bad);
    numerals::lemma_standing_char(s, at, bad, 0);
    assert(lexer::word_end(s, at) == at);
    let none = lexer::word_at(s, at);
    assert(none.len() == 0);
    words::lemma_letters();
    grammar::lemma_named_words_are_not_empty(none);
    reveal(program::statement_at);
    lemma_refused(sources, gap, bad);
}

/// Whether a word is one that a statement can start with.
pub open spec fn is_known(word: Seq<char>) -> bool {
    ||| word == "extern"@
    ||| word == "global"@
    ||| word == "const"@
    ||| word == "data"@
    ||| word == "opton"@
    ||| word == "optoff"@
    ||| word == "org"@
    ||| exists|operation: Operation| word == #[trigger] words::operation_text(operation)
    ||| exists|when: When| word == #[trigger] words::when_text(when)
}

proof fn lemma_unknown(word: Seq<char>)
    requires
        !is_known(word),
    ensures
        grammar::instruction_rule(word) is None,
        builder::condition_named(word) is None,
{
    if let Some(x) = builder::zero_named(word) {
        assert(word == words::zero_text(x));
        assert(word == words::operation_text(Operation::Zero(x)));
    }
    if let Some(x) = builder::one_named(word) {
        assert(word == words::one_text(x));
        assert(word == words::operation_text(Operation::One(x)));
    }
    if let Some(x) = builder::incdec_named(word) {
        assert(word == words::incdec_text(x));
        assert(word == words::operation_text(Operation::IncDec(x)));
    }
    if let Some(x) = builder::two_named(word) {
        assert(word == words::two_text(x));
        assert(word == words::operation_text(Operation::Two(x)));
    }
    if builder::condition_named(word) is Some {
        assert(word != words::when_text(When::Ifz));
        assert(word != words::when_text(When::Ifnz));
        assert(word != words::when_text(When::Ifc));
        assert(word != words::when_text(When::Ifnc));
        assert(word != words::when_text(When::Ifgt));
        assert(word != words::when_text(When::Ifgteq));
        assert(word != words::when_text(When::Iflt));
        assert(word != words::when_text(When::Iflteq));
    }
}

/// Behind statements, a word that is not known is refused where no colon makes it a
/// label.
pub proof fn law_unknown_word_is_refused(
    sources: Seq<Source>,
    gap: Seq<Gap>,
    word: Seq<char>,
    rest: Seq<char>,
)
    requires
        numerals::is_gaps(gap),
        forall|k: int| 0 <= k < sources.len() ==> source::is_source(#[trigger] sources[k]),
        words::is_word(word),
        !is_known(word),
        rest.len() > 0 ==> rest[0] != ' ' && rest[0] != '\t' && rest[0] != '\r' && rest[0] != '\n'
            && rest[0] != ';' && rest[0] != ':',
    ensures
        program::parsed(
            spoiled(sources, gap, word + (seq![' '] + numerals::gap_text(gap) + rest)),
        ) == Err::<Seq<NodeView>, ParseError>(
            ParseError::Syntax(spoiled_at(sources, gap) as usize),
        ),
{
    let wide = source::wide(gap);
    source::lemma_wide(gap);
    let bad = word + (numerals::gap_text(wide) + rest);
    let s = spoiled(sources, gap, bad);
    let at = spoiled_at(sources, gap);
    lemma_bad_stands(sources, gap, bad);
    assert(bad[0] == word[0] && numerals::is_word_char(word[0]));
    numerals::lemma_standing_char(s, at, bad, 0);
    numerals::lemma_stands(s, at, word, numerals::gap_text(wide) + rest);
    lemma_wide_gap(s, at + word.len(), wide, rest);
    numerals::lemma_word(s, at, word);
    lemma_unknown(word);
    source::lemma_only_instruction(s, at);
    lemma_refused(sources, gap, bad);
}

/// What stands behind a gap that is not empty, up to the end of the text.
proof fn lemma_wide_gap(s: Seq<char>, i: int, gap: Seq<Gap>, rest: Seq<char>)
    requires
        numerals::is_gaps(gap),
        gap.len() > 0,
        numerals::stands_at(s, i, numerals::gap_text(gap) + rest),
        i + numerals::gap_text(gap).len() + rest.len() == s.len(),
        rest.len() > 0 ==> rest[0] != ' ' && rest[0] != '\t' && rest[0] != '\r' && rest[0] != '\n'
            && rest[0] != ';',
    ensures
        numerals::word_stops(s, i),
        lexer::skip_blanks(s, i) == i + numerals::gap_text(gap).len(),
        rest.len() > 0 ==> s[i + numerals::gap_text(gap).len()] == rest[0],
        i + numerals::gap_text(gap).len() <= s.len(),
{
    let g = numerals::gap_text(gap);
    numerals::lemma_stands(s, i, g, rest);
    if rest.len() > 0 {
        numerals::lemma_standing_char(s, i + g.len(), rest, 0);
    }
    numerals::lemma_gap(s, i, gap);
    numerals::lemma_gap_stops_word(s, i, gap);
}

/// Behind statements, an instruction that takes operands is refused where none stands
/// behind it.
#[verifier::rlimit(40)]
#[verifier::spinoff_prover]
pub proof fn law_missing_operand_is_refused(
    sources: Seq<Source>,
    gap: Seq<Gap>,
    operation: Operation,
    size: Option<Size>,
    rest: Seq<char>,
)
    requires
        numerals::is_gaps(gap),
        forall|k: int| 0 <= k < sources.len() ==> source::is_source(#[trigger] sources[k]),
        !(operation is Zero),
        rest.len() > 0 ==> starts_anew(rest[0]) && !numerals::is_word_char(rest[0]) && rest[0]
            != '[' && rest[0] != '\'',
    ensures
        program::parsed(
            spoiled(
                sources,
                gap,
                words::operation_text(operation) + (source::size_part(size, gap) + (seq![' ']
                    + numerals::gap_text(gap) + rest)),
            ),
        ) == Err::<Seq<NodeView>, ParseError>(
            ParseError::Syntax(spoiled_at(sources, gap) as usize),
        ),
{
    let wide = source::wide(gap);
    source::lemma_wide(gap);
    let w = numerals::gap_text(wide);
    let name = words::operation_text(operation);
    let part = source::size_part(size, gap);
    let bad = name + (part + (w + rest));
    let s = spoiled(sources, gap, bad);
    let at = spoiled_at(sources, gap);
    words::lemma_operation_text(operation);
    lemma_bad_stands(sources, gap, bad);
    assert(bad[0] == name[0] && numerals::is_word_char(name[0]));
    numerals::lemma_standing_char(s, at, bad, 0);
    numerals::lemma_stands(s, at, name, part + (w + rest));
    numerals::lemma_stands(s, at + name.len(), part, w + rest);
    let end = at + name.len() + part.len();
    lemma_wide_gap(s, end, wide, rest);
    source::lemma_head(s, at, operation, size, gap, w + rest);
    let place = end + w.len();
    assert(lexer::word_end(s, place) == place);
    assert(lexer::word_at(s, place).len() == 0);
    assert(grammar::operand_at(s, place) is None);
    source::lemma_only_instruction(s, at);
    lemma_refused(sources, gap, bad);
}

/// Behind statements, an instruction that takes two operands is refused where no comma
/// stands behind the first.
#[verifier::rlimit(40)]
#[verifier::spinoff_prover]
pub proof fn law_missing_comma_is_refused(
    sources: Seq<Source>,
    gap: Seq<Gap>,
    operation: Operation,
    size: Option<Size>,
    first: Operand,
    rest: Seq<char>,
)
    requires
        numerals::is_gaps(gap),
        forall|k: int| 0 <= k < sources.len() ==> source::is_source(#[trigger] sources[k]),
        operation is Two,
        operands::is_operand(first),
        rest.len() > 0 ==> starts_anew(rest[0]),
    ensures
        program::parsed(
            spoiled(
                sources,
                gap,
                words::operation_text(operation) + (source::size_part(size, gap) + (seq![' ']
                    + numerals::gap_text(gap) + (operands::operand_text(first, gap) + (seq![' ']
                    + numerals::gap_text(gap) + rest)))),
            ),
        ) == Err::<Seq<NodeView>, ParseError>(
            ParseError::Syntax(spoiled_at(sources, gap) as usize),
        ),
{
    let wide = source::wide(gap);
    source::lemma_wide(gap);
    let w = numerals::gap_text(wide);
    let name = words::operation_text(operation);
    let part = source::size_part(size, gap);
    let operand = operands::operand_text(first, gap);
    let behind = operand + (w + rest);
    let bad = name + (part + (w + behind));
    let s = spoiled(sources, gap, bad);
    let at = spoiled_at(sources, gap);
    words::lemma_operation_text(operation);
    lemma_bad_stands(sources, gap, bad);
    assert(bad[0] == name[0] && numerals::is_word_char(name[0]));
    numerals::lemma_standing_char(s, at, bad, 0);
    numerals::lemma_stands(s, at, name, part + (w + behind));
    numerals::lemma_stands(s, at + name.len(), part, w + behind);
    let end = at + name.len() + part.len();
    source::lemma_operand_start(first, gap);
    assert(behind[0] == operand[0]);
    lemma_wide_gap(s, end, wide, behind);
    source::lemma_head(s, at, operation, size, gap, w + behind);
    let place = end + w.len();
    numerals::lemma_stands(s, end, w, behind);
    numerals::lemma_stands(s, place, operand, w + rest);
    let after = place + operand.len();
    lemma_wide_gap(s, after, wide, rest);
    operands::lemma_operand(s, place, first, gap, Size::Word);
    source::lemma_only_instruction(s, at);
    lemma_refused(sources, gap, bad);
}

proof fn lemma_no_size(size: Seq<char>)
    requires
        size != seq!['8'],
        size != seq!['1', '6'],
        size != seq!['3', '2'],
    ensures
        builder::size_named(seq!['.'] + size) is None,
{
    reveal_strlit(".8");
    reveal_strlit(".16");
    reveal_strlit(".32");
    let written = seq!['.'] + size;
    assert(written.drop_first() =~= size);
    assert(written == ".8"@ ==> size =~= seq!['8']);
    assert(written == ".16"@ ==> size =~= seq!['1', '6']);
    assert(written == ".32"@ ==> size =~= seq!['3', '2']);
}

proof fn lemma_no_step(step: Seq<char>)
    requires
        step != seq!['1'] && step != seq!['2'] && step != seq!['4'] && step != seq!['8'],
    ensures
        builder::step_named(step) is None,
{
    reveal_strlit("1");
    reveal_strlit("2");
    reveal_strlit("4");
    reveal_strlit("8");
    assert(step == "1"@ ==> step =~= seq!['1']);
    assert(step == "2"@ ==> step =~= seq!['2']);
    assert(step == "4"@ ==> step =~= seq!['4']);
    assert(step == "8"@ ==> step =~= seq!['8']);
}

/// Behind statements, an instruction that takes operands is refused where its size is
/// none of 8, 16 and 32.
#[verifier::rlimit(40)]
#[verifier::spinoff_prover]
pub proof fn law_unknown_size_is_refused(
    sources: Seq<Source>,
    gap: Seq<Gap>,
    operation: Operation,
    size: Seq<char>,
    rest: Seq<char>,
)
    requires
        numerals::is_gaps(gap),
        forall|k: int| 0 <= k < sources.len() ==> source::is_source(#[trigger] sources[k]),
        !(operation is Zero),
        forall|k: int| 0 <= k < size.len() ==> numerals::is_word_char(#[trigger] size[k]),
        size != seq!['8'],
        size != seq!['1', '6'],
        size != seq!['3', '2'],
        rest.len() > 0 ==> !numerals::is_word_char(rest[0]),
    ensures
        program::parsed(
            spoiled(
                sources,
                gap,
                words::operation_text(operation) + (numerals::gap_text(gap) + (seq!['.'] + (size
                    + rest))),
            ),
        ) == Err::<Seq<NodeView>, ParseError>(
            ParseError::Syntax(spoiled_at(sources, gap) as usize),
        ),
{
    let name = words::operation_text(operation);
    let g = numerals::gap_text(gap);
    let dotted = seq!['.'] + (size + rest);
    let bad = name + (g + dotted);
    let s = spoiled(sources, gap, bad);
    let at = spoiled_at(sources, gap);
    words::lemma_operation_text(operation);
    lemma_bad_stands(sources, gap, bad);
    assert(bad[0] == name[0] && numerals::is_word_char(name[0]));
    numerals::lemma_standing_char(s, at, bad, 0);
    numerals::lemma_stands(s, at, name, g + dotted);
    let end = at + name.len();
    assert(dotted[0] == '.');
    source::lemma_behind_gap(s, end, gap, dotted);
    numerals::lemma_word(s, at, name);
    let dot = end + g.len();
    numerals::lemma_stands(s, dot, seq!['.'], size + rest);
    numerals::lemma_stands(s, dot + 1, size, rest);
    if rest.len() > 0 {
        numerals::lemma_standing_char(s, dot + 1 + size.len(), rest, 0);
    } else {
        assert(dot + 1 + size.len() == s.len());
    }
    numerals::lemma_word(s, dot + 1, size);
    let written = s.subrange(dot, dot + 1 + size.len());
    assert(written =~= seq!['.'] + size);
    lemma_no_size(size);
    assert(lexer::word_end(s, dot) == dot);
    assert(lexer::word_at(s, dot).len() == 0);
    assert(grammar::operand_at(s, dot) is None);
    source::lemma_only_instruction(s, at);
    lemma_refused(sources, gap, bad);
}

/// Behind statements, data is refused whose kind is not known.
#[verifier::rlimit(40)]
#[verifier::spinoff_prover]
pub proof fn law_unknown_data_is_refused(
    sources: Seq<Source>,
    gap: Seq<Gap>,
    kind: Seq<char>,
    rest: Seq<char>,
)
    requires
        numerals::is_gaps(gap),
        forall|k: int| 0 <= k < sources.len() ==> source::is_source(#[trigger] sources[k]),
        forall|k: int| 0 <= k < kind.len() ==> numerals::is_word_char(#[trigger] kind[k]),
        kind != "8"@ && kind != "16"@ && kind != "32"@ && kind != "str"@ && kind != "strz"@ && kind
            != "fill"@,
        rest.len() > 0 ==> !numerals::is_word_char(rest[0]),
    ensures
        program::parsed(spoiled(sources, gap, "data"@ + (seq!['.'] + (kind + rest)))) == Err::<
            Seq<NodeView>,
            ParseError,
        >(ParseError::Syntax(spoiled_at(sources, gap) as usize)),
{
    let word = "data"@;
    let dotted = seq!['.'] + (kind + rest);
    let bad = word + dotted;
    let s = spoiled(sources, gap, bad);
    let at = spoiled_at(sources, gap);
    words::lemma_key_word(word);
    lemma_bad_stands(sources, gap, bad);
    assert(bad[0] == word[0] && numerals::is_word_char(word[0]));
    numerals::lemma_standing_char(s, at, bad, 0);
    numerals::lemma_stands(s, at, word, dotted);
    let dot = at + word.len();
    assert(dotted[0] == '.');
    numerals::lemma_standing_char(s, dot, dotted, 0);
    numerals::lemma_word(s, at, word);
    numerals::lemma_stands(s, dot, seq!['.'], kind + rest);
    numerals::lemma_stands(s, dot + 1, kind, rest);
    if rest.len() > 0 {
        numerals::lemma_standing_char(s, dot + 1 + kind.len(), rest, 0);
    } else {
        assert(dot + 1 + kind.len() == s.len());
    }
    numerals::lemma_word(s, dot + 1, kind);
    assert(lexer::skip_blanks(s, dot) == dot);
    words::lemma_letters();
    assert(program::statement_at(s, at) is None) by {
        reveal(program::statement_at);
        assert(grammar::instruction_rule(word) is None);
        assert(builder::condition_named(word) is None);
    }
    lemma_refused(sources, gap, bad);
}

/// Behind statements, an increment or decrement is refused by another step than 1, 2, 4
/// and 8.
#[verifier::rlimit(40)]
#[verifier::spinoff_prover]
pub proof fn law_unknown_step_is_refused(
    sources: Seq<Source>,
    gap: Seq<Gap>,
    operation: Operation,
    size: Option<Size>,
    operand: Operand,
    step: Seq<char>,
    rest: Seq<char>,
)
    requires
        numerals::is_gaps(gap),
        forall|k: int| 0 <= k < sources.len() ==> source::is_source(#[trigger] sources[k]),
        operation is IncDec,
        operands::is_operand(operand),
        words::is_word(step),
        step != seq!['1'] && step != seq!['2'] && step != seq!['4'] && step != seq!['8'],
        rest.len() > 0 ==> !numerals::is_word_char(rest[0]),
    ensures
        program::parsed(
            spoiled(
                sources,
                gap,
                words::operation_text(operation) + (source::size_part(size, gap) + (seq![' ']
                    + numerals::gap_text(gap) + (operands::operand_text(operand, gap)
                    + source::after_comma(gap, step + rest)))),
            ),
        ) == Err::<Seq<NodeView>, ParseError>(
            ParseError::Syntax(spoiled_at(sources, gap) as usize),
        ),
{
    let wide = source::wide(gap);
    source::lemma_wide(gap);
    let w = numerals::gap_text(wide);
    let name = words::operation_text(operation);
    let part = source::size_part(size, gap);
    let own = operands::operand_text(operand, gap);
    let amount = source::after_comma(gap, step + rest);
    let behind = own + amount;
    let bad = name + (part + (w + behind));
    let s = spoiled(sources, gap, bad);
    let at = spoiled_at(sources, gap);
    words::lemma_operation_text(operation);
    lemma_bad_stands(sources, gap, bad);
    assert(bad[0] == name[0] && numerals::is_word_char(name[0]));
    numerals::lemma_standing_char(s, at, bad, 0);
    numerals::lemma_stands(s, at, name, part + (w + behind));
    numerals::lemma_stands(s, at + name.len(), part, w + behind);
    let end = at + name.len() + part.len();
    source::lemma_operand_start(operand, gap);
    assert(behind[0] == own[0]);
    lemma_wide_gap(s, end, wide, behind);
    source::lemma_head(s, at, operation, size, gap, w + behind);
    let place = end + w.len();
    numerals::lemma_stands(s, end, w, behind);
    numerals::lemma_stands(s, place, own, amount);
    let after = place + own.len();
    assert((step + rest)[0] == step[0]);
    assert(numerals::is_word_char(step[0]));
    source::lemma_after_comma(s, after, gap, step + rest);
    operands::lemma_operand(s, place, operand, gap, Size::Word);
    let next = after + numerals::gap_text(gap).len() + 1 + numerals::gap_text(gap).len();
    numerals::lemma_stands(s, next, step, rest);
    if rest.len() > 0 {
        numerals::lemma_standing_char(s, next + step.len(), rest, 0);
    } else {
        assert(next + step.len() == s.len());
    }
    numerals::lemma_word(s, next, step);
    lemma_no_step(step);
    source::lemma_only_instruction(s, at);
    lemma_refused(sources, gap, bad);
}

/// A bracket that is not closed starts no operand.
proof fn lemma_open_bracket(
    s: Seq<char>,
    i: int,
    value: Value,
    gap: Seq<Gap>,
    close: char,
    rest: Seq<char>,
)
    requires
        numerals::is_gaps(gap),
        operands::is_value(value),
        !numerals::is_word_char(close),
        starts_anew(close) || close == '.' || close == ',' || close == ':',
        close != ']' && close != '+',
        numerals::stands_at(
            s,
            i,
            seq!['['] + (numerals::gap_text(gap) + (operands::value_text(value) + (
            numerals::gap_text(gap) + (seq![close] + rest)))),
        ),
    ensures
        grammar::operand_at(s, i) is None,
        0 <= i < s.len(),
        s[i] == '[',
{
    let g = numerals::gap_text(gap);
    let text = operands::value_text(value);
    let inner = g + (text + (g + (seq![close] + rest)));
    let closed = g + (text + (g + seq![close]));
    numerals::lemma_stands(s, i, seq!['['], inner);
    numerals::lemma_standing_char(s, i, seq!['['], 0);
    assert(inner =~= closed + rest);
    numerals::lemma_stands(s, i + 1, closed, rest);
    let at = operands::lemma_value_in_gap(s, i + 1, value, gap, close);
    operands::lemma_value(s, at, value, Size::Word);
    if operands::is_register(value) {
        operands::lemma_register(s, at, value);
    } else if operands::is_number(value) {
        operands::lemma_immediate(s, at, value);
        operands::lemma_number_is_no_register(s, at, value);
    } else {
        operands::lemma_label(s, at, value->Label_0);
    }
}

/// Behind statements, an instruction is refused whose first operand is an open bracket
/// with a value and something else than a closing bracket, or a plus sign, behind it.
#[verifier::rlimit(40)]
#[verifier::spinoff_prover]
pub proof fn law_open_bracket_is_refused(
    sources: Seq<Source>,
    gap: Seq<Gap>,
    operation: Operation,
    size: Option<Size>,
    value: Value,
    close: char,
    rest: Seq<char>,
)
    requires
        numerals::is_gaps(gap),
        forall|k: int| 0 <= k < sources.len() ==> source::is_source(#[trigger] sources[k]),
        !(operation is Zero),
        operands::is_value(value),
        !numerals::is_word_char(close),
        starts_anew(close) || close == '.' || close == ',' || close == ':',
        close != ']' && close != '+',
    ensures
        program::parsed(
            spoiled(
                sources,
                gap,
                words::operation_text(operation) + (source::size_part(size, gap) + (seq![' ']
                    + numerals::gap_text(gap) + (seq!['['] + (numerals::gap_text(gap) + (
                operands::value_text(value) + (numerals::gap_text(gap) + (seq![close] + rest))))))),
            ),
        ) == Err::<Seq<NodeView>, ParseError>(
            ParseError::Syntax(spoiled_at(sources, gap) as usize),
        ),
{
    let wide = source::wide(gap);
    source::lemma_wide(gap);
    let g = numerals::gap_text(gap);
    let w = numerals::gap_text(wide);
    let name = words::operation_text(operation);
    let part = source::size_part(size, gap);
    let behind = seq!['['] + (g + (operands::value_text(value) + (g + (seq![close] + rest))));
    let bad = name + (part + (w + behind));
    let s = spoiled(sources, gap, bad);
    let at = spoiled_at(sources, gap);
    words::lemma_operation_text(operation);
    lemma_bad_stands(sources, gap, bad);
    assert(bad[0] == name[0] && numerals::is_word_char(name[0]));
    numerals::lemma_standing_char(s, at, bad, 0);
    numerals::lemma_stands(s, at, name, part + (w + behind));
    numerals::lemma_stands(s, at + name.len(), part, w + behind);
    let end = at + name.len() + part.len();
    assert(behind[0] == '[');
    lemma_wide_gap(s, end, wide, behind);
    source::lemma_head(s, at, operation, size, gap, w + behind);
    numerals::lemma_stands(s, end, w, behind);
    lemma_open_bracket(s, end + w.len(), value, gap, close, rest);
    source::lemma_only_instruction(s, at);
    lemma_refused(sources, gap, bad);
}

/// Behind statements, text without a quote at its end is refused.
#[verifier::rlimit(40)]
#[verifier::spinoff_prover]
pub proof fn law_open_quote_is_refused(
    sources: Seq<Source>,
    gap: Seq<Gap>,
    zero: bool,
    text: Seq<char>,
)
    requires
        numerals::is_gaps(gap),
        forall|k: int| 0 <= k < sources.len() ==> source::is_source(#[trigger] sources[k]),
        forall|k: int| 0 <= k < text.len() ==> #[trigger] text[k] != '"',
    ensures
        program::parsed(
            spoiled(
                sources,
                gap,
                "data"@ + (seq!['.'] + ((if zero {
                    "strz"@
                } else {
                    "str"@
                }) + (numerals::gap_text(gap) + (seq!['"'] + text)))),
            ),
        ) == Err::<Seq<NodeView>, ParseError>(
            ParseError::Syntax(spoiled_at(sources, gap) as usize),
        ),
{
    let g = numerals::gap_text(gap);
    let kind = if zero {
        "strz"@
    } else {
        "str"@
    };
    let quoted = seq!['"'] + text;
    let bad = "data"@ + (seq!['.'] + (kind + (g + quoted)));
    let s = spoiled(sources, gap, bad);
    let at = spoiled_at(sources, gap);
    words::lemma_key_word("data"@);
    assert(bad[0] == "data"@[0] && numerals::is_word_char("data"@[0]));
    lemma_bad_stands(sources, gap, bad);
    numerals::lemma_standing_char(s, at, bad, 0);
    reveal_strlit("data");
    numerals::lemma_stands(s, at, "data"@, seq!['.'] + (kind + (g + quoted)));
    numerals::lemma_stands(s, at + 4, seq!['.'], kind + (g + quoted));
    numerals::lemma_stands(s, at + 5, kind, g + quoted);
    let end = at + 5 + kind.len();
    assert(quoted[0] == '"');
    source::lemma_behind_gap(s, end, gap, quoted);
    source::lemma_data_start(s, at, kind, g + quoted);
    let quote = end + g.len();
    numerals::lemma_stands(s, quote, seq!['"'], text);
    lexer::lemma_find_char(s, quote + 1, '"');
    let close = lexer::find_char(s, quote + 1, '"');
    assert(close == s.len()) by {
        if close < s.len() {
            numerals::lemma_standing_char(s, quote + 1, text, close - quote - 1);
        }
    }
    assert(program::quoted_at(s, quote) is None);
    lemma_data_is_no_instruction();
    assert(program::statement_at(s, at) is None) by {
        reveal(program::statement_at);
    }
    lemma_refused(sources, gap, bad);
}

proof fn lemma_data_is_no_instruction()
    ensures
        grammar::instruction_rule("data"@) is None,
        builder::condition_named("data"@) is None,
        "data"@ != "opton"@,
        "data"@ != "optoff"@,
        "data"@ != "org"@,
        "str"@ != "8"@ && "str"@ != "16"@ && "str"@ != "32"@ && "str"@ != "fill"@,
        "strz"@ != "8"@ && "strz"@ != "16"@ && "strz"@ != "32"@ && "strz"@ != "fill"@,
        "strz"@ != "str"@,
{
    words::lemma_letters();
}

} // verus!
