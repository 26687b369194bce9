//! Numbers as they are written in a program.

use crate::text;
use crate::text::chars_of;
use vstd::arithmetic::power::*;
use vstd::prelude::*;

verus! {

/// The value of a digit in the given base.
pub open spec fn digit_value(c: char, radix: nat) -> Option<nat> {
    let value: int = if '0' <= c && c <= '9' {
        c as int - 48
    } else if 'a' <= c && c <= 'z' {
        c as int - 87
    } else if 'A' <= c && c <= 'Z' {
        c as int - 55
    } else {
        -1
    };
    if 0 <= value < radix {
        Some(value as nat)
    } else {
        None
    }
}

/// The value of a sequence of digits in the given base.
pub open spec fn digits_value(digits: Seq<char>, radix: nat) -> Option<nat>
    decreases digits.len(),
{
    if digits.len() == 0 {
        Some(0)
    } else {
        match (digits_value(digits.drop_last(), radix), digit_value(digits.last(), radix)) {
            (Some(value), Some(digit)) => Some(value * radix + digit),
            _ => None,
        }
    }
}

/// The number that a text stands for: at least one digit, after an optional plus
/// sign, with a value of at most `max`.
pub open spec fn number(text: Seq<char>, radix: nat, max: nat) -> Option<nat> {
    let digits = if text.len() > 0 && text[0] == '+' {
        text.drop_first()
    } else {
        text
    };
    match digits_value(digits, radix) {
        Some(value) => if digits.len() > 0 && value <= max {
            Some(value)
        } else {
            None
        },
        None => None,
    }
}

/// `text` without its underscores.
pub open spec fn without_underscores(text: Seq<char>) -> Seq<char> {
    text.filter(|c: char| c != '_')
}

/// The value of a digit in the given base.
pub fn to_digit(c: char, radix: u32) -> (digit: Option<u32>)
    requires
        radix <= 36,
    ensures
        match digit {
            Some(d) => digit_value(c, radix as nat) == Some(d as nat),
            None => digit_value(c, radix as nat) is None,
        },
{
    let value: u32 = if '0' <= c && c <= '9' {
        c as u32 - 48
    } else if 'a' <= c && c <= 'z' {
        c as u32 - 87
    } else if 'A' <= c && c <= 'Z' {
        c as u32 - 55
    } else {
        36
    };
    if value < radix {
        Some(value)
    } else {
        None
    }
}

/// A number does not get smaller by further digits.
proof fn lemma_more_digits(digits: Seq<char>, count: int, radix: nat, max: nat)
    requires
        0 <= count <= digits.len(),
        radix > 0,
        match digits_value(digits.take(count), radix) {
            Some(value) => value > max,
            None => true,
        },
    ensures
        match digits_value(digits, radix) {
            Some(value) => value > max,
            None => true,
        },
    decreases digits.len() - count,
{
    if count == digits.len() {
        assert(digits.take(count) =~= digits);
    } else {
        let longer = digits.take(count + 1);
        assert(longer.drop_last() =~= digits.take(count));
        match (digits_value(longer.drop_last(), radix), digit_value(longer.last(), radix)) {
            (Some(value), Some(digit)) => {
                assert(value * radix >= value) by (nonlinear_arith)
                    requires
                        radix > 0,
                ;
            },
            _ => {},
        }
        lemma_more_digits(digits, count + 1, radix, max);
    }
}

/// The number that a text stands for in the given base, if it is at most `max`.
pub fn parse_number(text: &String, radix: u32, max: u32) -> (value: Option<u32>)
    requires
        0 < radix <= 36,
    ensures
        match value {
            Some(v) => number(text@, radix as nat, max as nat) == Some(v as nat),
            None => number(text@, radix as nat, max as nat) is None,
        },
{
    let chars = chars_of(text.as_str());
    let start: usize = if chars.len() > 0 && chars[0] == '+' {
        1
    } else {
        0
    };
    if start == chars.len() {
        return None;
    }
    let ghost digits = text@.skip(start as int);
    assert(start == 1 ==> digits =~= text@.drop_first());
    assert(start == 0 ==> digits =~= text@);
    let mut value: u32 = 0;
    let mut i: usize = start;
    assert(digits.take(0) =~= Seq::empty());
    while i < chars.len()
        invariant
            start <= i <= chars@.len(),
            0 < radix <= 36,
            value <= max,
            chars@ == text@,
            digits == text@.skip(start as int),
            number(text@, radix as nat, max as nat) == match digits_value(digits, radix as nat) {
                Some(v) => if v <= max {
                    Some(v)
                } else {
                    None
                },
                None => None,
            },
            digits_value(digits.take(i - start), radix as nat) == Some(value as nat),
        decreases chars@.len() - i,
    {
        let ghost longer = digits.take(i - start + 1);
        assert(longer.drop_last() =~= digits.take(i - start));
        assert(longer.last() == chars@[i as int]);
        match to_digit(chars[i], radix) {
            None => {
                proof {
                    lemma_more_digits(digits, i - start + 1, radix as nat, max as nat);
                }
                return None;
            },
            Some(digit) => {
                assert(value * radix <= 0xffff_ffff * 36) by (nonlinear_arith)
                    requires
                        value <= 0xffff_ffff,
                        radix <= 36,
                ;
                let next: u64 = value as u64 * radix as u64 + digit as u64;
                if next > max as u64 {
                    proof {
                        lemma_more_digits(digits, i - start + 1, radix as nat, max as nat);
                    }
                    return None;
                }
                value = next as u32;
            },
        }
        i = i + 1;
    }
    assert(digits.take(i - start) =~= digits);
    Some(value)
}

/// `input` without its underscores.
pub fn remove_underscores(input: &str) -> (output: String)
    ensures
        output@ == without_underscores(input@),
{
    let chars = chars_of(input);
    let ghost keep = |c: char| c != '_';
    let mut output = String::new();
    let mut i: usize = 0;
    proof {
        reveal(Seq::filter);
        assert(output@ =~= input@.take(0).filter(keep));
    }
    while i < chars.len()
        invariant
            i <= chars@.len(),
            chars@ == input@,
            keep == (|c: char| c != '_'),
            output@ == input@.take(i as int).filter(keep),
        decreases chars@.len() - i,
    {
        if chars[i] != '_' {
            output.push(chars[i]);
        }
        proof {
            reveal(Seq::filter);
            assert(input@.take(i + 1).drop_last() =~= input@.take(i as int));
        }
        i = i + 1;
    }
    assert(input@.take(i as int) =~= input@);
    output
}

/// Underscores do not count: a number is the same with one more of them.
pub proof fn law_underscores_do_not_count(text: Seq<char>, place: int)
    requires
        0 <= place <= text.len(),
    ensures
        without_underscores(text.insert(place, '_')) == without_underscores(text),
{
    let keep = |c: char| c != '_';
    let head = text.take(place);
    let tail = text.skip(place);
    let mark = seq!['_'];
    Seq::filter_distributes_over_add(head, tail, keep);
    Seq::filter_distributes_over_add(head + mark, tail, keep);
    Seq::filter_distributes_over_add(head, mark, keep);
    assert(mark.filter(keep) =~= Seq::empty()) by {
        reveal_with_fuel(Seq::filter, 2);
    }
    assert(head.filter(keep) + Seq::<char>::empty() =~= head.filter(keep));
    assert(text =~= head + tail);
    assert(text.insert(place, '_') =~= head + mark + tail);
}

/// The digits of a word in base 16 read back as that word.
pub proof fn law_hex_digits_read_back(x: u32)
    ensures
        number(text::hex_digits(x as nat, 8), 16, u32::MAX as nat) == Some(x as nat),
{
    lemma_hex_digits(x as nat, 8);
    assert(pow(16, 8) == 0x1_0000_0000) by {
        reveal_with_fuel(pow, 9);
    }
    let digits = text::hex_digits(x as nat, 8);
    assert(digits.len() == 8);
    assert(digits[0] != '+');
}

proof fn lemma_hex_digits(x: nat, count: nat)
    ensures
        text::hex_digits(x, count).len() == count,
        forall|k: int| 0 <= k < count ==> #[trigger] text::hex_digits(x, count)[k] != '+',
        x < pow(16, count) ==> digits_value(text::hex_digits(x, count), 16) == Some(x),
    decreases count,
{
    if count == 0 {
        reveal(pow);
    } else {
        lemma_hex_digits(x / 16, (count - 1) as nat);
        let digits = text::hex_digits(x, count);
        assert(digits.drop_last() =~= text::hex_digits(x / 16, (count - 1) as nat));
        assert(digit_value(digits.last(), 16) == Some(x % 16));
        reveal_with_fuel(pow, 2);
    }
}

/// Whether a character is a digit in base 2, 10 or 16.
pub open spec fn is_digit(c: char, radix: nat) -> bool {
    ||| c == '0' || c == '1'
    ||| radix >= 10 && '2' <= c && c <= '9'
    ||| radix == 16 && ('a' <= c && c <= 'f' || 'A' <= c && c <= 'F')
}

proof fn lemma_no_digit(digits: Seq<char>, radix: nat, k: int)
    requires
        radix == 2 || radix == 10 || radix == 16,
        0 <= k < digits.len(),
        !is_digit(digits[k], radix),
    ensures
        digits_value(digits, radix) is None,
    decreases digits.len(),
{
    if k < digits.len() - 1 {
        assert(digits.drop_last()[k] == digits[k]);
        lemma_no_digit(digits.drop_last(), radix, k);
    }
}

/// A text that holds something else than digits, behind an optional plus sign, stands for
/// no number; neither does one without digits.
pub proof fn law_what_is_no_number(text: Seq<char>, radix: nat, max: nat, k: int)
    requires
        radix == 2 || radix == 10 || radix == 16,
    ensures
        0 <= k < text.len() && !is_digit(text[k], radix) && !(k == 0 && text[0] == '+') ==> number(
            text,
            radix,
            max,
        ) is None,
        text.len() == 0 ==> number(text, radix, max) is None,
        text == seq!['+'] ==> number(text, radix, max) is None,
{
    if 0 <= k < text.len() && !is_digit(text[k], radix) && !(k == 0 && text[0] == '+') {
        if text[0] == '+' {
            assert(text.drop_first()[k - 1] == text[k]);
            lemma_no_digit(text.drop_first(), radix, k - 1);
        } else {
            lemma_no_digit(text, radix, k);
        }
    }
    if text == seq!['+'] {
        assert(text.drop_first().len() == 0);
    }
}

/// Digits alone stand for a number, if it is not too large: a digit behind others counts
/// once, and those before it count as often as the base says.
pub proof fn law_digits_stand_for_a_number(digits: Seq<char>, last: char, radix: nat, max: nat)
    requires
        radix == 2 || radix == 10 || radix == 16,
        is_digit(last, radix),
    ensures
        ({
            let unit = if '0' <= last && last <= '9' {
                last as int - '0' as int
            } else if 'a' <= last {
                last as int - 'a' as int + 10
            } else {
                last as int - 'A' as int + 10
            };
            &&& number(seq![last], radix, max) == if unit <= max {
                Some(unit as nat)
            } else {
                None
            }
            &&& forall|value: nat|
                #[trigger] number(digits, radix, value) == Some(value) ==> number(
                    digits.push(last),
                    radix,
                    max,
                ) == if value * radix + unit <= max {
                    Some((value * radix + unit) as nat)
                } else {
                    None
                }
        }),
{
    assert(seq![last].drop_last() =~= seq![]);
    reveal_with_fuel(digits_value, 2);
    assert(digits.push(last).drop_last() =~= digits);
    if digits.len() > 0 && digits[0] == '+' {
        let rest = digits.drop_first();
        assert(digits.push(last).drop_first() =~= rest.push(last));
        assert(rest.push(last).drop_last() =~= rest);
    }
}

/// A text without underscores stays as it is.
pub proof fn law_nothing_but_underscores_is_removed(text: Seq<char>)
    requires
        forall|k: int| 0 <= k < text.len() ==> #[trigger] text[k] != '_',
    ensures
        without_underscores(text) == text,
    decreases text.len(),
{
    reveal(Seq::filter);
    if text.len() > 0 {
        let fewer = text.drop_last();
        assert forall|k: int| 0 <= k < fewer.len() implies #[trigger] fewer[k] != '_' by {
            assert(fewer[k] == text[k]);
        }
        law_nothing_but_underscores_is_removed(fewer);
        assert(text[text.len() - 1] != '_');
        assert(fewer.push(text.last()) =~= text);
    }
}

} // verus!
