//! The lexical level of a program: blanks and comments, words, numbers and quotes.

use crate::numbers;
use crate::numbers::to_digit;
use vstd::prelude::*;

verus! {

/// The characters that may stand between any two parts of a program.
pub open spec fn is_blank(c: char) -> bool {
    c == ' ' || c == '\t' || c == '\r' || c == '\n'
}

/// The characters that names are made of.
pub open spec fn is_name_char(c: char) -> bool {
    ||| '0' <= c && c <= '9'
    ||| 'a' <= c && c <= 'z'
    ||| 'A' <= c && c <= 'Z'
    ||| c == '_'
}

/// The first position from `i` on that holds the character `stop`, or the end.
pub open spec fn find_char(s: Seq<char>, i: int, stop: char) -> int
    decreases s.len() - i,
{
    if 0 <= i < s.len() && s[i] != stop {
        find_char(s, i + 1, stop)
    } else {
        i
    }
}

/// The end of the word that starts at `i`.
pub open spec fn word_end(s: Seq<char>, i: int) -> int
    decreases s.len() - i,
{
    if 0 <= i < s.len() && is_name_char(s[i]) {
        word_end(s, i + 1)
    } else {
        i
    }
}

/// The word that starts at `i`; it is empty where none does.
pub open spec fn word_at(s: Seq<char>, i: int) -> Seq<char> {
    s.subrange(i, word_end(s, i))
}

/// The first position from `i` on that is neither blank nor in a comment. A comment
/// goes from a semicolon to the end of the line.
pub open spec fn skip_blanks(s: Seq<char>, i: int) -> int
    decreases s.len() - i,
{
    if 0 <= i < s.len() && is_blank(s[i]) {
        skip_blanks(s, i + 1)
    } else if 0 <= i < s.len() && s[i] == ';' {
        proof {
            lemma_find_char(s, i + 1, '\n');
        }
        skip_blanks(s, find_char(s, i + 1, '\n'))
    } else {
        i
    }
}

/// Whether the character at `i` is `c`.
pub open spec fn symbol_at(s: Seq<char>, i: int, c: char) -> bool {
    0 <= i < s.len() && s[i] == c
}

/// Whether the characters from `i` to `j` are the digits of a number in the given
/// base, with underscores among them.
pub open spec fn is_number_body(s: Seq<char>, i: int, j: int, radix: nat) -> bool {
    &&& i < j
    &&& forall|k: int|
        i <= k < j ==> (#[trigger] s[k] == '_' || numbers::digit_value(s[k], radix) is Some)
}

/// Whether the characters from `i` to `j` are decimal digits.
pub open spec fn is_digits(s: Seq<char>, i: int, j: int) -> bool {
    &&& i < j
    &&& forall|k: int| i <= k < j ==> '0' <= #[trigger] s[k] && s[k] <= '9'
}

/// The search for a character stays within the text, and stops at that character or
/// at the end.
pub proof fn lemma_find_char(s: Seq<char>, i: int, stop: char)
    requires
        0 <= i <= s.len(),
    ensures
        i <= find_char(s, i, stop) <= s.len(),
        find_char(s, i, stop) < s.len() ==> s[find_char(s, i, stop)] == stop,
        forall|k: int| i <= k < find_char(s, i, stop) ==> #[trigger] s[k] != stop,
    decreases s.len() - i,
{
    if i < s.len() && s[i] != stop {
        lemma_find_char(s, i + 1, stop);
    }
}

/// A word stays within the text and is made of the characters of names.
pub proof fn lemma_word_end(s: Seq<char>, i: int)
    requires
        0 <= i <= s.len(),
    ensures
        i <= word_end(s, i) <= s.len(),
        forall|k: int| i <= k < word_end(s, i) ==> #[trigger] is_name_char(s[k]),
        word_end(s, i) < s.len() ==> !is_name_char(s[word_end(s, i)]),
    decreases s.len() - i,
{
    if i < s.len() && is_name_char(s[i]) {
        lemma_word_end(s, i + 1);
    }
}

/// Skipping blanks stays within the text, and stops at something to be read.
pub proof fn lemma_skip_blanks(s: Seq<char>, i: int)
    requires
        0 <= i <= s.len(),
    ensures
        i <= skip_blanks(s, i) <= s.len(),
        skip_blanks(s, i) < s.len() ==> !is_blank(s[skip_blanks(s, i)]) && s[skip_blanks(s, i)]
            != ';',
        skip_blanks(s, skip_blanks(s, i)) == skip_blanks(s, i),
    decreases s.len() - i,
{
    if i < s.len() && (is_blank(s[i]) || s[i] == ';') {
        lemma_find_char(s, i + 1, '\n');
        if s[i] == ';' {
            lemma_skip_blanks(s, find_char(s, i + 1, '\n'));
        } else {
            lemma_skip_blanks(s, i + 1);
        }
    }
}

/// Whether names may hold this character.
fn name_char(c: char) -> (answer: bool)
    ensures
        answer == is_name_char(c),
{
    ('0' <= c && c <= '9') || ('a' <= c && c <= 'z') || ('A' <= c && c <= 'Z') || c == '_'
}

/// The first position from `i` on that holds the character `stop`, or the end.
pub fn find_symbol(chars: &Vec<char>, i: usize, stop: char) -> (end: usize)
    requires
        i <= chars@.len(),
    ensures
        end == find_char(chars@, i as int, stop),
        i <= end <= chars@.len(),
{
    let mut end: usize = i;
    while end < chars.len() && chars[end] != stop
        invariant
            i <= end <= chars@.len(),
            find_char(chars@, end as int, stop) == find_char(chars@, i as int, stop),
        decreases chars@.len() - end,
    {
        end = end + 1;
    }
    end
}

/// The end of the word that starts at `i`.
pub fn end_of_word(chars: &Vec<char>, i: usize) -> (end: usize)
    requires
        i <= chars@.len(),
    ensures
        end == word_end(chars@, i as int),
        i <= end <= chars@.len(),
{
    let mut end: usize = i;
    while end < chars.len() && name_char(chars[end])
        invariant
            i <= end <= chars@.len(),
            word_end(chars@, end as int) == word_end(chars@, i as int),
        decreases chars@.len() - end,
    {
        end = end + 1;
    }
    end
}

/// The first position from `i` on that is neither blank nor in a comment.
pub fn skip(chars: &Vec<char>, i: usize) -> (end: usize)
    requires
        i <= chars@.len(),
    ensures
        end == skip_blanks(chars@, i as int),
        i <= end <= chars@.len(),
{
    let mut end: usize = i;
    while end < chars.len() && (chars[end] == ' ' || chars[end] == '\t' || chars[end] == '\r'
        || chars[end] == '\n' || chars[end] == ';')
        invariant
            i <= end <= chars@.len(),
            skip_blanks(chars@, end as int) == skip_blanks(chars@, i as int),
        decreases chars@.len() - end,
    {
        if chars[end] == ';' {
            end = find_symbol(chars, end + 1, '\n');
        } else {
            end = end + 1;
        }
    }
    end
}

/// Whether the character at `i` is `c`.
pub fn is_symbol(chars: &Vec<char>, i: usize, c: char) -> (answer: bool)
    ensures
        answer == symbol_at(chars@, i as int, c),
        chars@.len() <= usize::MAX,
{
    i < chars.len() && chars[i] == c
}

/// Whether the characters from `i` to `j` are the digits of a number in the given
/// base, with underscores among them.
pub fn number_body(chars: &Vec<char>, i: usize, j: usize, radix: u32) -> (answer: bool)
    requires
        j <= chars@.len(),
        radix <= 36,
    ensures
        answer == is_number_body(chars@, i as int, j as int, radix as nat),
{
    if i >= j {
        return false;
    }
    let mut k: usize = i;
    while k < j
        invariant
            i <= k <= j <= chars@.len(),
            radix <= 36,
            forall|m: int|
                i <= m < k ==> (#[trigger] chars@[m] == '_' || numbers::digit_value(
                    chars@[m],
                    radix as nat,
                ) is Some),
        decreases j - k,
    {
        if chars[k] != '_' && to_digit(chars[k], radix).is_none() {
            assert(!(chars@[k as int] == '_'));
            return false;
        }
        k = k + 1;
    }
    true
}

/// Whether the characters from `i` to `j` are decimal digits.
pub fn digits(chars: &Vec<char>, i: usize, j: usize) -> (answer: bool)
    requires
        j <= chars@.len(),
    ensures
        answer == is_digits(chars@, i as int, j as int),
{
    if i >= j {
        return false;
    }
    let mut k: usize = i;
    while k < j
        invariant
            i <= k <= j <= chars@.len(),
            forall|m: int| i <= m < k ==> '0' <= #[trigger] chars@[m] && chars@[m] <= '9',
        decreases j - k,
    {
        if chars[k] < '0' || chars[k] > '9' {
            assert(!('0' <= chars@[k as int] && chars@[k as int] <= '9'));
            return false;
        }
        k = k + 1;
    }
    true
}

} // verus!
