//! Pieces of source text: words, gaps between them, and numbers as they can be written.

use crate::builder::ParseError;
use crate::{builder, lexer, numbers};
use vstd::prelude::*;

verus! {

/// Whether the text `t` stands at the place `i` of `s`.
pub open spec fn stands_at(s: Seq<char>, i: int, t: Seq<char>) -> bool {
    &&& 0 <= i
    &&& i + t.len() <= s.len()
    &&& s.subrange(i, i + t.len()) == t
}

/// A text that stands somewhere is made of what stands there.
pub proof fn lemma_stands(s: Seq<char>, i: int, a: Seq<char>, b: Seq<char>)
    requires
        stands_at(s, i, a + b),
    ensures
        stands_at(s, i, a),
        stands_at(s, i + a.len(), b),
{
    let whole = s.subrange(i, i + (a + b).len());
    assert(s.subrange(i, i + a.len()) =~= a) by {
        assert forall|k: int| 0 <= k < a.len() implies s[i + k] == a[k] by {
            assert(whole[k] == (a + b)[k]);
        }
    }
    assert(s.subrange(i + a.len(), i + a.len() + b.len()) =~= b) by {
        assert forall|k: int| 0 <= k < b.len() implies s[i + a.len() + k] == b[k] by {
            assert(whole[a.len() + k] == (a + b)[a.len() + k]);
        }
    }
}

/// The characters of a text that stands somewhere.
pub proof fn lemma_standing_char(s: Seq<char>, i: int, t: Seq<char>, k: int)
    requires
        stands_at(s, i, t),
        0 <= k < t.len(),
    ensures
        s[i + k] == t[k],
{
    assert(s.subrange(i, i + t.len())[k] == t[k]);
}

/// The letters, digits and underscores.
pub open spec fn is_word_char(c: char) -> bool {
    let code = c as int;
    48 <= code <= 57 || 65 <= code <= 90 || code == 95 || 97 <= code <= 122
}

/// Whether a word cannot go on at `j`.
pub open spec fn word_stops(s: Seq<char>, j: int) -> bool {
    j == s.len() || (0 <= j < s.len() && !is_word_char(s[j]))
}

/// A text of letters, digits and underscores is read as one word.
pub proof fn lemma_word(s: Seq<char>, i: int, w: Seq<char>)
    requires
        stands_at(s, i, w),
        forall|k: int| 0 <= k < w.len() ==> is_word_char(#[trigger] w[k]),
        word_stops(s, i + w.len()),
    ensures
        lexer::word_end(s, i) == i + w.len(),
        lexer::word_at(s, i) == w,
    decreases w.len(),
{
    if w.len() > 0 {
        lemma_standing_char(s, i, w, 0);
        assert(is_word_char(w[0]));
        let rest = w.drop_first();
        assert(w =~= seq![w[0]] + rest);
        lemma_stands(s, i, seq![w[0]], rest);
        assert forall|k: int| 0 <= k < rest.len() implies is_word_char(#[trigger] rest[k]) by {
            assert(rest[k] == w[k + 1]);
        }
        lemma_word(s, i + 1, rest);
    }
}

/// What may stand between the parts of a program: a blank, or a comment with the line
/// feed at its end.
pub enum Gap {
    Blank(char),
    Comment(Seq<char>),
}

pub open spec fn is_gap(piece: Gap) -> bool {
    match piece {
        Gap::Blank(c) => c == ' ' || c == '\t' || c == '\r' || c == '\n',
        Gap::Comment(text) => forall|k: int| 0 <= k < text.len() ==> #[trigger] text[k] != '\n',
    }
}

pub open spec fn piece_text(piece: Gap) -> Seq<char> {
    match piece {
        Gap::Blank(c) => seq![c],
        Gap::Comment(text) => seq![';'] + text + seq!['\n'],
    }
}

/// The text of a sequence of blanks and comments.
pub open spec fn gap_text(gap: Seq<Gap>) -> Seq<char>
    decreases gap.len(),
{
    if gap.len() == 0 {
        seq![]
    } else {
        piece_text(gap[0]) + gap_text(gap.drop_first())
    }
}

pub open spec fn is_gaps(gap: Seq<Gap>) -> bool {
    forall|k: int| 0 <= k < gap.len() ==> is_gap(#[trigger] gap[k])
}

/// Whether something to be read stands at `j`, or the end.
pub open spec fn is_solid(s: Seq<char>, j: int) -> bool {
    j == s.len() || (0 <= j < s.len() && s[j] != ' ' && s[j] != '\t' && s[j] != '\r' && s[j]
        != '\n' && s[j] != ';')
}

/// A character is found behind a text that does not hold it.
pub proof fn lemma_find(s: Seq<char>, i: int, text: Seq<char>, stop: char)
    requires
        stands_at(s, i, text + seq![stop]),
        forall|k: int| 0 <= k < text.len() ==> #[trigger] text[k] != stop,
    ensures
        lexer::find_char(s, i, stop) == i + text.len(),
    decreases text.len(),
{
    lemma_standing_char(s, i, text + seq![stop], 0);
    if text.len() > 0 {
        let rest = text.drop_first();
        assert(text + seq![stop] =~= seq![text[0]] + (rest + seq![stop]));
        lemma_stands(s, i, seq![text[0]], rest + seq![stop]);
        assert forall|k: int| 0 <= k < rest.len() implies #[trigger] rest[k] != stop by {
            assert(rest[k] == text[k + 1]);
        }
        lemma_find(s, i + 1, rest, stop);
        assert(text[0] != stop);
    }
}

/// Blanks and comments are skipped, whatever follows them.
pub proof fn lemma_gap_skipped(s: Seq<char>, i: int, gap: Seq<Gap>)
    requires
        stands_at(s, i, gap_text(gap)),
        is_gaps(gap),
    ensures
        lexer::skip_blanks(s, i) == lexer::skip_blanks(s, i + gap_text(gap).len()),
    decreases gap.len(),
{
    if gap.len() > 0 {
        let rest = gap.drop_first();
        let first = piece_text(gap[0]);
        assert(is_gap(gap[0]));
        lemma_stands(s, i, first, gap_text(rest));
        assert forall|k: int| 0 <= k < rest.len() implies is_gap(#[trigger] rest[k]) by {
            assert(rest[k] == gap[k + 1]);
        }
        lemma_gap_skipped(s, i + first.len(), rest);
        lemma_standing_char(s, i, first, 0);
        match gap[0] {
            Gap::Blank(c) => {},
            Gap::Comment(text) => {
                assert(first =~= seq![';'] + (text + seq!['\n']));
                lemma_stands(s, i, seq![';'], text + seq!['\n']);
                lemma_find(s, i + 1, text, '\n');
                let end = i + 1 + text.len();
                lemma_standing_char(s, i + 1, text + seq!['\n'], text.len() as int);
                assert(s[end] == '\n');
                assert(lexer::skip_blanks(s, i) == lexer::skip_blanks(s, end));
                assert(lexer::skip_blanks(s, end) == lexer::skip_blanks(s, end + 1));
            },
        }
    }
}

/// Blanks and comments are skipped.
pub proof fn lemma_gap(s: Seq<char>, i: int, gap: Seq<Gap>)
    requires
        stands_at(s, i, gap_text(gap)),
        is_gaps(gap),
        is_solid(s, i + gap_text(gap).len()),
    ensures
        lexer::skip_blanks(s, i) == i + gap_text(gap).len(),
{
    lemma_gap_skipped(s, i, gap);
}

/// A word stops before blanks and comments, and before what is no part of a word behind
/// them.
pub proof fn lemma_gap_stops_word(s: Seq<char>, i: int, gap: Seq<Gap>)
    requires
        stands_at(s, i, gap_text(gap)),
        is_gaps(gap),
        gap.len() == 0 ==> word_stops(s, i),
    ensures
        word_stops(s, i),
{
    if gap.len() > 0 {
        assert(is_gap(gap[0]));
        let first = piece_text(gap[0]);
        lemma_stands(s, i, first, gap_text(gap.drop_first()));
        lemma_standing_char(s, i, first, 0);
    }
}

/// The bases in which numbers can be written.
#[derive(PartialEq, Eq, Debug, Clone, Copy, Structural)]
pub enum Base {
    Binary,
    Decimal,
    Hexadecimal,
}

pub open spec fn radix(base: Base) -> nat {
    match base {
        Base::Binary => 2,
        Base::Decimal => 10,
        Base::Hexadecimal => 16,
    }
}

/// A number and how it is written: with so many zeros before its digits, with capital
/// letters or small ones, and with or without underscores between its digits.
pub struct Numeral {
    pub value: nat,
    pub base: Base,
    pub zeros: nat,
    pub capital: bool,
    pub spaced: bool,
}

/// A digit.
#[verifier::opaque]
pub open spec fn digit(d: nat, capital: bool) -> char {
    if d == 0 {
        '0'
    } else if d == 1 {
        '1'
    } else if d == 2 {
        '2'
    } else if d == 3 {
        '3'
    } else if d == 4 {
        '4'
    } else if d == 5 {
        '5'
    } else if d == 6 {
        '6'
    } else if d == 7 {
        '7'
    } else if d == 8 {
        '8'
    } else if d == 9 {
        '9'
    } else if d == 10 {
        if capital {
            'A'
        } else {
            'a'
        }
    } else if d == 11 {
        if capital {
            'B'
        } else {
            'b'
        }
    } else if d == 12 {
        if capital {
            'C'
        } else {
            'c'
        }
    } else if d == 13 {
        if capital {
            'D'
        } else {
            'd'
        }
    } else if d == 14 {
        if capital {
            'E'
        } else {
            'e'
        }
    } else {
        if capital {
            'F'
        } else {
            'f'
        }
    }
}

/// The digits of a number.
pub open spec fn digits(x: nat, radix: nat, capital: bool, spaced: bool) -> Seq<char>
    decreases x,
{
    if radix < 2 || x < radix {
        seq![digit(x, capital)]
    } else {
        proof {
            assert(x / radix < x) by (nonlinear_arith)
                requires
                    radix >= 2,
                    x >= radix,
            ;
        }
        digits(x / radix, radix, capital, spaced) + (if spaced {
            seq!['_', digit(x % radix, capital)]
        } else {
            seq![digit(x % radix, capital)]
        })
    }
}

pub open spec fn zeros(count: nat) -> Seq<char> {
    Seq::new(count, |i: int| '0')
}

/// What stands before the digits.
pub open spec fn prefix(base: Base) -> Seq<char> {
    match base {
        Base::Binary => seq!['0', 'b'],
        Base::Decimal => seq![],
        Base::Hexadecimal => seq!['0', 'x'],
    }
}

/// The digits of a number with the zeros before them.
pub open spec fn body_text(number: Numeral) -> Seq<char> {
    zeros(number.zeros) + digits(
        number.value,
        radix(number.base),
        number.capital,
        number.spaced,
    )
}

/// A number as it is written.
pub open spec fn numeral_text(number: Numeral) -> Seq<char> {
    prefix(number.base) + body_text(number)
}

/// The word that a numeral stands for.
pub open spec fn numeral_value(number: Numeral) -> Result<u32, ParseError> {
    if number.value <= 0xFFFF_FFFF {
        Ok(number.value as u32)
    } else {
        Err(ParseError::InvalidNumber)
    }
}

/// Whether a character can stand in the body of a number.
#[verifier::opaque]
pub open spec fn is_body_char(c: char, radix: nat) -> bool {
    is_word_char(c) && (c == '_' || numbers::digit_value(c, radix) is Some)
}

/// A digit has its value.
proof fn lemma_digit(d: nat, radix: nat, capital: bool)
    requires
        radix == 2 || radix == 10 || radix == 16,
        d < radix,
    ensures
        numbers::digit_value(digit(d, capital), radix) == Some(d),
        is_body_char(digit(d, capital), radix),
        is_body_char('_', radix),
        digit(d, capital) != '_',
        digit(d, capital) != '+',
        radix == 10 ==> '0' <= digit(d, capital) && digit(d, capital) <= '9',
{
    reveal(digit);
    reveal(is_body_char);
}

/// What the digits of a number are made of.
proof fn lemma_digits(x: nat, radix: nat, capital: bool, spaced: bool)
    requires
        radix == 2 || radix == 10 || radix == 16,
    ensures
        ({
            let text = digits(x, radix, capital, spaced);
            &&& text.len() > 0
            &&& text[0] != '_' && text[0] != '+'
            &&& forall|k: int| 0 <= k < text.len() ==> is_body_char(#[trigger] text[k], radix)
            &&& radix == 10 && !spaced ==> forall|k: int|
                0 <= k < text.len() ==> '0' <= #[trigger] text[k] && text[k] <= '9'
        }),
    decreases x,
{
    let text = digits(x, radix, capital, spaced);
    if x < radix {
        lemma_digit(x, radix, capital);
    } else {
        assert(x / radix < x) by (nonlinear_arith)
            requires
                radix >= 2,
                x >= radix,
        ;
        assert(0 <= x % radix < radix);
        lemma_digits(x / radix, radix, capital, spaced);
        lemma_digit(x % radix, radix, capital);
        let before = digits(x / radix, radix, capital, spaced);
        let last = digit(x % radix, capital);
        let tail = if spaced {
            seq!['_', last]
        } else {
            seq![last]
        };
        assert(text == before + tail);
        assert(text[0] == before[0]);
        assert forall|k: int| 0 <= k < text.len() implies is_body_char(
            #[trigger] text[k],
            radix,
        ) by {
            if k < before.len() {
                assert(text[k] == before[k]);
            } else {
                assert(text[k] == tail[k - before.len()]);
            }
        }
        if radix == 10 && !spaced {
            assert forall|k: int| 0 <= k < text.len() implies '0' <= #[trigger] text[k] && text[k]
                <= '9' by {
                if k < before.len() {
                    assert(text[k] == before[k]);
                } else {
                    assert(text[k] == last);
                }
            }
        }
    }
}

/// Without underscores a number is written like one that has none.
proof fn lemma_digits_filtered(x: nat, radix: nat, capital: bool, spaced: bool)
    requires
        radix == 2 || radix == 10 || radix == 16,
    ensures
        digits(x, radix, capital, spaced).filter(|c: char| c != '_') == digits(
            x,
            radix,
            capital,
            false,
        ),
    decreases x,
{
    let keep = |c: char| c != '_';
    let text = digits(x, radix, capital, spaced);
    if x < radix {
        lemma_digit(x, radix, capital);
        assert(text.filter(keep) =~= text) by {
            reveal_with_fuel(Seq::filter, 2);
            assert(text.drop_last() =~= seq![]);
        }
    } else {
        assert(x / radix < x) by (nonlinear_arith)
            requires
                radix >= 2,
                x >= radix,
        ;
        lemma_digits_filtered(x / radix, radix, capital, spaced);
        lemma_digit(x % radix, radix, capital);
        let before = digits(x / radix, radix, capital, spaced);
        let last = digit(x % radix, capital);
        let tail = if spaced {
            seq!['_', last]
        } else {
            seq![last]
        };
        Seq::filter_distributes_over_add(before, tail, keep);
        assert(tail.filter(keep) =~= seq![last]) by {
            reveal_with_fuel(Seq::filter, 3);
            if spaced {
                assert(tail.drop_last() =~= seq!['_']);
                assert(seq!['_'].drop_last() =~= Seq::<char>::empty());
            } else {
                assert(tail.drop_last() =~= Seq::<char>::empty());
            }
        }
    }
}

/// The digits of a number stand for it, whatever zeros stand before them.
proof fn lemma_digits_value(x: nat, radix: nat, capital: bool, count: nat)
    requires
        radix == 2 || radix == 10 || radix == 16,
    ensures
        numbers::digits_value(zeros(count) + digits(x, radix, capital, false), radix) == Some(x),
    decreases x,
{
    let text = zeros(count) + digits(x, radix, capital, false);
    if x < radix {
        lemma_digit(x, radix, capital);
        assert(text.drop_last() =~= zeros(count));
        assert(text.last() == digit(x, capital));
        lemma_zeros(count, radix);
    } else {
        assert(x / radix < x) by (nonlinear_arith)
            requires
                radix >= 2,
                x >= radix,
        ;
        lemma_digit(x % radix, radix, capital);
        lemma_digits_value(x / radix, radix, capital, count);
        assert(text.drop_last() =~= zeros(count) + digits(x / radix, radix, capital, false));
        assert(text.last() == digit(x % radix, capital));
        assert((x / radix) * radix + x % radix == x) by (nonlinear_arith)
            requires
                radix > 0,
        ;
    }
}

proof fn lemma_zeros(count: nat, radix: nat)
    requires
        radix == 2 || radix == 10 || radix == 16,
    ensures
        numbers::digits_value(zeros(count), radix) == Some(0nat),
    decreases count,
{
    if count > 0 {
        let fewer = (count - 1) as nat;
        lemma_zeros(fewer, radix);
        assert(zeros(count).drop_last() =~= zeros(fewer));
        assert(zeros(count).last() == '0');
    }
}

proof fn lemma_zeros_filtered(count: nat)
    ensures
        zeros(count).filter(|c: char| c != '_') == zeros(count),
    decreases count,
{
    let keep = |c: char| c != '_';
    if count > 0 {
        let fewer = (count - 1) as nat;
        lemma_zeros_filtered(fewer);
        assert(zeros(count).drop_last() =~= zeros(fewer));
        assert(zeros(count) =~= zeros(fewer) + seq!['0']);
        Seq::filter_distributes_over_add(zeros(fewer), seq!['0'], keep);
        assert(seq!['0'].filter(keep) =~= seq!['0']) by {
            reveal_with_fuel(Seq::filter, 2);
            assert(seq!['0'].drop_last() =~= Seq::<char>::empty());
        }
    } else {
        assert(zeros(0) =~= Seq::<char>::empty());
        reveal_with_fuel(Seq::filter, 1);
        assert(zeros(0).filter(keep) =~= zeros(0));
    }
}

/// What the body of a numeral is made of.
pub proof fn lemma_body_chars(number: Numeral)
    ensures
        ({
            let text = body_text(number);
            &&& text.len() > 0
            &&& text[0] != '_' && text[0] != '+'
            &&& forall|k: int|
                0 <= k < text.len() ==> is_body_char(#[trigger] text[k], radix(number.base))
            &&& number.base is Decimal && !number.spaced ==> forall|k: int|
                0 <= k < text.len() ==> '0' <= #[trigger] text[k] && text[k] <= '9'
        }),
{
    let base = radix(number.base);
    let text = body_text(number);
    let head = zeros(number.zeros);
    let tail = digits(number.value, base, number.capital, number.spaced);
    lemma_digits(number.value, base, number.capital, number.spaced);
    assert(is_body_char('0', base)) by {
        reveal(is_body_char);
    }
    assert forall|k: int| 0 <= k < text.len() implies is_body_char(#[trigger] text[k], base) by {
        if k < head.len() {
            assert(text[k] == '0');
        } else {
            assert(text[k] == tail[k - head.len()]);
        }
    }
    if number.base is Decimal && !number.spaced {
        assert forall|k: int| 0 <= k < text.len() implies '0' <= #[trigger] text[k] && text[k]
            <= '9' by {
            if k < head.len() {
                assert(text[k] == '0');
            } else {
                assert(text[k] == tail[k - head.len()]);
            }
        }
    }
    if number.zeros == 0 {
        assert(text[0] == tail[0]);
    } else {
        assert(text[0] == '0');
    }
}

/// What the body of a numeral stands for.
pub proof fn lemma_body_value(number: Numeral)
    ensures
        builder::word_written(body_text(number), radix(number.base)) == numeral_value(number),
        !number.spaced ==> numbers::number(body_text(number), radix(number.base), 255) == (
        if number.value <= 255 {
            Some(number.value)
        } else {
            None
        }),
{
    let keep = |c: char| c != '_';
    let base = radix(number.base);
    let text = body_text(number);
    let head = zeros(number.zeros);
    let tail = digits(number.value, base, number.capital, number.spaced);
    let plain = Numeral { spaced: false, ..number };
    lemma_digits_filtered(number.value, base, number.capital, number.spaced);
    lemma_zeros_filtered(number.zeros);
    Seq::filter_distributes_over_add(head, tail, keep);
    assert(numbers::without_underscores(text) == body_text(plain));
    lemma_digits_value(number.value, base, number.capital, number.zeros);
    lemma_body_chars(plain);
    lemma_body_chars(number);
}

} // verus!
