//! Files that a program takes in: text in place of a line, and binary data.

use crate::ast::{AstNode, NodeView};
use crate::lexer::find_symbol;
use crate::text::{chars_of, push_chars, text_of, trim};
use crate::{lexer, numerals, source, text};
use vstd::prelude::*;

verus! {

/// How often a program is searched for a line that takes in text.
pub const INCLUDE_PASSES: u32 = 128;

/// A line up to the line feed at its end, without a carriage return before that.
pub open spec fn line_text(line: Seq<char>) -> Seq<char> {
    if line.len() > 0 && line.last() == '\r' {
        line.drop_last()
    } else {
        line
    }
}

/// The lines of a text. A line ends with a line feed, or with a carriage return and a
/// line feed; the last one may also end with the text.
pub open spec fn lines(s: Seq<char>) -> Seq<Seq<char>>
    decreases s.len(),
{
    let end = lexer::find_char(s, 0, '\n');
    if s.len() == 0 {
        Seq::empty()
    } else if end < 0 || end >= s.len() {
        seq![s]
    } else {
        seq![line_text(s.take(end))] + lines(s.skip(end + 1))
    }
}

/// The lines one after the other, each with a line feed at its end.
pub open spec fn joined(lines: Seq<Seq<char>>) -> Seq<char>
    decreases lines.len(),
{
    if lines.len() == 0 {
        Seq::empty()
    } else {
        lines[0] + seq!['\n'] + joined(lines.drop_first())
    }
}

/// Whether a line takes in a text file.
pub open spec fn is_include_line(line: Seq<char>) -> bool {
    "#include \""@.is_prefix_of(text::trimmed(line))
}

/// The first line from `i` on that takes in a text file.
pub open spec fn first_include(lines: Seq<Seq<char>>, i: int) -> Option<int>
    decreases lines.len() - i,
{
    if !(0 <= i < lines.len()) {
        None
    } else if is_include_line(lines[i]) {
        Some(i)
    } else {
        first_include(lines, i + 1)
    }
}

/// The path that a line names: what stands between the first quote and the last
/// character, which takes a single byte.
pub open spec fn include_path(line: Seq<char>) -> Option<Seq<char>> {
    let quote = lexer::find_char(line, 0, '"');
    if quote + 1 < line.len() && (line.last() as u32) < 128 {
        Some(line.subrange(quote + 1, line.len() - 1))
    } else {
        None
    }
}

/// The text with the line of the given number replaced by `included`.
pub open spec fn spliced(source: Seq<char>, line_number: nat, included: Seq<char>) -> Seq<char> {
    let all = lines(source);
    if line_number < all.len() {
        joined(all.take(line_number as int)) + included + seq!['\n'] + joined(
            all.skip(line_number as int + 1),
        )
    } else {
        joined(all) + included + seq!['\n']
    }
}

/// A text file that a program takes in.
#[derive(Debug, PartialEq, Eq)]
pub struct TextInclude {
    /// The number of the line that it replaces, counted from 0.
    pub line_number: usize,
    pub path: String,
}

/// Why a file cannot be taken in.
#[derive(Debug, PartialEq, Eq, Clone, Copy, Structural)]
pub enum IncludeError {
    /// The line with this number does not name a path.
    NoPath(usize),
    /// The file cannot be read.
    Unreadable,
}

/// The lines of a text, as sequences of characters.
pub open spec fn text_views(texts: Seq<String>) -> Seq<Seq<char>> {
    Seq::new(texts.len(), |i: int| texts[i]@)
}

/// The search for a character is the same in what is left of a text.
proof fn lemma_find_in_rest(s: Seq<char>, i: int, k: int, stop: char)
    requires
        0 <= i <= s.len(),
        0 <= k <= s.len() - i,
    ensures
        lexer::find_char(s.skip(i), k, stop) == lexer::find_char(s, i + k, stop) - i,
    decreases s.len() - i - k,
{
    if i + k < s.len() {
        assert(s.skip(i)[k] == s[i + k]);
        if s[i + k] != stop {
            lemma_find_in_rest(s, i, k + 1, stop);
        }
    }
}

/// The lines of a text.
pub fn lines_of(source: &str) -> (result: Vec<String>)
    ensures
        text_views(result@) == lines(source@),
{
    let chars = chars_of(source);
    let mut result: Vec<String> = Vec::new();
    let mut i: usize = 0;
    let ghost all = lines(source@);
    proof {
        assert(source@.skip(0) =~= source@);
        assert(text_views(result@) + all =~= all);
    }
    while i < chars.len()
        invariant
            chars@ == source@,
            i <= chars@.len(),
            all == lines(source@),
            all == text_views(result@) + lines(chars@.skip(i as int)),
        decreases chars@.len() - i,
    {
        let end = find_symbol(&chars, i, '\n');
        let ghost rest = chars@.skip(i as int);
        let ghost done = text_views(result@);
        proof {
            lemma_find_in_rest(chars@, i as int, 0, '\n');
        }
        if end == chars.len() {
            result.push(text_of(&chars, i, end));
            proof {
                assert(chars@.subrange(i as int, end as int) =~= rest);
                assert(text_views(result@) =~= done + seq![rest]);
            }
            return result;
        }
        proof {
            assert(chars@.subrange(i as int, end as int) =~= rest.take(end - i));
            assert(rest.skip(end - i + 1) =~= chars@.skip(end + 1));
        }
        let ghost line = line_text(rest.take(end - i));
        if end > i && chars[end - 1] == '\r' {
            result.push(text_of(&chars, i, end - 1));
            assert(chars@.subrange(i as int, end - 1) =~= line);
        } else {
            result.push(text_of(&chars, i, end));
        }
        proof {
            assert(text_views(result@) =~= done + seq![line]);
            assert(done + (seq![line] + lines(chars@.skip(end + 1))) =~= (done + seq![line])
                + lines(chars@.skip(end + 1)));
        }
        i = end + 1;
    }
    proof {
        assert(lines(chars@.skip(i as int)) =~= Seq::empty());
        assert(all =~= text_views(result@));
    }
    result
}

/// Whether a text starts with the given literal.
fn starts_with(chars: &Vec<char>, literal: &str) -> (answer: bool)
    ensures
        answer == literal@.is_prefix_of(chars@),
{
    let prefix = chars_of(literal);
    if prefix.len() > chars.len() {
        return false;
    }
    let mut i: usize = 0;
    while i < prefix.len()
        invariant
            prefix@ == literal@,
            i <= prefix@.len() <= chars@.len(),
            forall|k: int| 0 <= k < i ==> prefix@[k] == chars@[k],
        decreases prefix@.len() - i,
    {
        if prefix[i] != chars[i] {
            assert(literal@[i as int] != chars@.subrange(0, literal@.len() as int)[i as int]);
            return false;
        }
        i = i + 1;
    }
    assert(literal@ =~= chars@.subrange(0, literal@.len() as int));
    true
}

/// What a program takes in next: the first line that asks for a text file, with the
/// path that it names.
pub open spec fn next_include(source: Seq<char>) -> Result<
    Option<(nat, Seq<char>)>,
    IncludeError,
> {
    match first_include(lines(source), 0) {
        Some(n) => match include_path(text::trimmed(lines(source)[n])) {
            Some(path) => Ok(Some((n as nat, path))),
            None => Err(IncludeError::NoPath(n as usize)),
        },
        None => Ok(None),
    }
}

/// Finds the first line that takes in a text file.
pub fn find_include(source: &str) -> (result: Result<Option<TextInclude>, IncludeError>)
    ensures
        match result {
            Ok(Some(found)) => next_include(source@) == Ok::<
                Option<(nat, Seq<char>)>,
                IncludeError,
            >(Some((found.line_number as nat, found.path@))),
            Ok(None) => next_include(source@) == Ok::<Option<(nat, Seq<char>)>, IncludeError>(None),
            Err(error) => next_include(source@) == Err::<Option<(nat, Seq<char>)>, IncludeError>(
                error,
            ),
        },
{
    let all = lines_of(source);
    let mut n: usize = 0;
    while n < all.len()
        invariant
            n <= all@.len(),
            text_views(all@) == lines(source@),
            first_include(lines(source@), n as int) == first_include(lines(source@), 0),
        decreases all@.len() - n,
    {
        assert(lines(source@)[n as int] == all@[n as int]@);
        let line = trim(all[n].as_str());
        let chars = chars_of(line.as_str());
        if starts_with(&chars, "#include \"") {
            let quote = find_symbol(&chars, 0, '"');
            if chars.len() > 0 && quote < chars.len() - 1 && (chars[chars.len() - 1] as u32) < 128 {
                let path = text_of(&chars, quote + 1, chars.len() - 1);
                return Ok(Some(TextInclude { line_number: n, path }));
            } else {
                return Err(IncludeError::NoPath(n));
            }
        }
        n = n + 1;
    }
    Ok(None)
}

/// Joining a further line.
/// A line that is appended to others ends with a line feed as well.
pub proof fn lemma_joined_push(all: Seq<Seq<char>>, line: Seq<char>)
    ensures
        joined(all.push(line)) == joined(all) + line + seq!['\n'],
    decreases all.len(),
{
    let more = all.push(line);
    if all.len() == 0 {
        reveal_with_fuel(joined, 2);
        assert(more.drop_first() =~= Seq::empty());
        assert(joined(more) =~= joined(all) + line + seq!['\n']);
    } else {
        assert(more.drop_first() =~= all.drop_first().push(line));
        lemma_joined_push(all.drop_first(), line);
        assert(joined(more) =~= joined(all) + line + seq!['\n']);
    }
}

/// Appends the lines from `start` to `end`, without the latter, each with a line feed.
fn push_lines(result: &mut String, all: &Vec<String>, start: usize, end: usize)
    requires
        start <= end <= all@.len(),
    ensures
        final(result)@ == old(result)@ + joined(
            text_views(all@).subrange(start as int, end as int),
        ),
{
    let ghost views = text_views(all@);
    let ghost before = result@;
    let mut i: usize = start;
    proof {
        assert(views.subrange(start as int, start as int) =~= Seq::empty());
        assert(before + Seq::<char>::empty() =~= before);
    }
    while i < end
        invariant
            start <= i <= end <= all@.len(),
            views == text_views(all@),
            before == old(result)@,
            result@ == before + joined(views.subrange(start as int, i as int)),
        decreases end - i,
    {
        let chars = chars_of(all[i].as_str());
        push_chars(result, &chars, 0, chars.len());
        result.push('\n');
        proof {
            let so_far = views.subrange(start as int, i as int);
            assert(chars@.subrange(0, chars@.len() as int) =~= views[i as int]);
            assert(views.subrange(start as int, i + 1) =~= so_far.push(views[i as int]));
            lemma_joined_push(so_far, views[i as int]);
            assert(result@ =~= before + (joined(so_far) + views[i as int] + seq!['\n']));
        }
        i = i + 1;
    }
}

/// Replaces the line of the given number by the text of a file.
pub fn include_text_file(line_number: usize, included: &str, source: &str) -> (result: String)
    ensures
        result@ == spliced(source@, line_number as nat, included@),
{
    let all = lines_of(source);
    let ghost views = text_views(all@);
    let mut result = String::new();
    let before: usize = if line_number < all.len() {
        line_number
    } else {
        all.len()
    };
    push_lines(&mut result, &all, 0, before);
    let chars = chars_of(included);
    push_chars(&mut result, &chars, 0, chars.len());
    result.push('\n');
    let ghost start = result@;
    assert(chars@.subrange(0, chars@.len() as int) =~= included@);
    assert(views.subrange(0, before as int) =~= views.take(before as int));
    assert(start =~= joined(views.take(before as int)) + included@ + seq!['\n']);
    if line_number < all.len() {
        push_lines(&mut result, &all, line_number + 1, all.len());
        assert(views.subrange(line_number + 1, all@.len() as int) =~= views.skip(line_number + 1));
    } else {
        assert(views.take(before as int) =~= views);
    }
    result
}

/// The data of a binary file, where it could be read; no data, where the file is
/// optional and could not.
pub open spec fn binary_data(contents: Option<Seq<u8>>, optional: bool) -> Result<
    NodeView,
    IncludeError,
> {
    match contents {
        Some(data) => Ok(NodeView::IncludedBinary(data)),
        None => if optional {
            Ok(NodeView::IncludedBinary(Seq::empty()))
        } else {
            Err(IncludeError::Unreadable)
        },
    }
}

/// The statement for a binary file with the given contents, where it could be read.
pub fn included_binary(contents: Option<Vec<u8>>, optional: bool) -> (result: Result<
    AstNode,
    IncludeError,
>)
    ensures
        ({
            let data = match contents {
                Some(bytes) => Some(bytes@),
                None => None,
            };
            match result {
                Ok(node) => binary_data(data, optional) == Ok::<NodeView, IncludeError>(node@),
                Err(error) => binary_data(data, optional) == Err::<NodeView, IncludeError>(error),
            }
        }),
{
    match contents {
        Some(bytes) => Ok(AstNode::IncludedBinary(bytes)),
        None => if optional {
            let empty: Vec<u8> = Vec::new();
            assert(empty@ =~= Seq::empty());
            Ok(AstNode::IncludedBinary(empty))
        } else {
            Err(IncludeError::Unreadable)
        },
    }
}

/// Whether a line comes out of [`lines`] again as it went into [`joined`].
pub open spec fn is_plain_line(line: Seq<char>) -> bool {
    &&& forall|k: int| 0 <= k < line.len() ==> #[trigger] line[k] != '\n'
    &&& line.len() > 0 ==> line.last() != '\r'
}

/// The line feed that ends a line is found after it.
proof fn lemma_line_end(line: Seq<char>, rest: Seq<char>, k: int)
    requires
        is_plain_line(line),
        0 <= k <= line.len(),
    ensures
        lexer::find_char(line + seq!['\n'] + rest, k, '\n') == line.len(),
    decreases line.len() - k,
{
    let whole = line + seq!['\n'] + rest;
    if k < line.len() {
        assert(whole[k] == line[k]);
        lemma_line_end(line, rest, k + 1);
    } else {
        assert(whole[k] == '\n');
    }
}

/// Lines without carriage returns at their ends that are joined are read back as they
/// were, before the lines of what follows.
pub proof fn law_joined_lines_read_back(all: Seq<Seq<char>>, rest: Seq<char>)
    requires
        forall|k: int| 0 <= k < all.len() ==> is_plain_line(#[trigger] all[k]),
    ensures
        lines(joined(all) + rest) == all + lines(rest),
    decreases all.len(),
{
    if all.len() == 0 {
        assert(joined(all) + rest =~= rest);
        assert(all + lines(rest) =~= lines(rest));
    } else {
        let more = all.drop_first();
        assert forall|k: int| 0 <= k < more.len() implies is_plain_line(#[trigger] more[k]) by {
            assert(more[k] == all[k + 1]);
        }
        law_joined_lines_read_back(more, rest);
        let tail = joined(more) + rest;
        let whole = joined(all) + rest;
        assert(whole =~= all[0] + seq!['\n'] + tail);
        lemma_line_end(all[0], tail, 0);
        assert(whole.take(all[0].len() as int) =~= all[0]);
        assert(whole.skip(all[0].len() as int + 1) =~= tail);
        assert(seq![all[0]] + (more + lines(rest)) =~= all + lines(rest));
    }
}

/// A character is found at the same place in a longer text.
proof fn lemma_find_in_longer(x: Seq<char>, rest: Seq<char>, k: int, stop: char)
    requires
        0 <= k <= x.len(),
        lexer::find_char(x, k, stop) < x.len(),
    ensures
        lexer::find_char(x + rest, k, stop) == lexer::find_char(x, k, stop),
    decreases x.len() - k,
{
    if k < x.len() {
        assert((x + rest)[k] == x[k]);
        if x[k] != stop {
            lemma_find_in_longer(x, rest, k + 1, stop);
        }
    }
}

/// A text that ends with a line feed has its lines before those of what follows.
pub proof fn law_lines_of_texts_in_a_row(x: Seq<char>, rest: Seq<char>)
    requires
        x.len() > 0 ==> x.last() == '\n',
    ensures
        lines(x + rest) == lines(x) + lines(rest),
    decreases x.len(),
{
    if x.len() == 0 {
        assert(x + rest =~= rest);
        assert(lines(x) + lines(rest) =~= lines(rest));
    } else {
        let end = lexer::find_char(x, 0, '\n');
        lexer::lemma_find_char(x, 0, '\n');
        assert(end < x.len()) by {
            assert(x[x.len() - 1] == '\n');
        }
        lemma_find_in_longer(x, rest, 0, '\n');
        assert((x + rest).take(end) =~= x.take(end));
        assert((x + rest).skip(end + 1) =~= x.skip(end + 1) + rest);
        law_lines_of_texts_in_a_row(x.skip(end + 1), rest);
        let line = seq![line_text(x.take(end))];
        assert(line + (lines(x.skip(end + 1)) + lines(rest)) =~= (line + lines(x.skip(end + 1)))
            + lines(rest));
    }
}

/// Taking in a file replaces one line by the lines of that file. The other lines stay
/// as they are, as far as none of them ends with a carriage return.
pub proof fn law_splice_replaces_one_line(source: Seq<char>, n: nat, included: Seq<char>)
    requires
        n < lines(source).len(),
        forall|k: int|
            0 <= k < lines(source).len() && k != n ==> is_plain_line(#[trigger] lines(source)[k]),
    ensures
        lines(spliced(source, n, included)) == lines(source).take(n as int) + lines(
            included + seq!['\n'],
        ) + lines(source).skip(n as int + 1),
{
    let all = lines(source);
    let head = all.take(n as int);
    let tail = all.skip(n as int + 1);
    let text = included + seq!['\n'];
    assert(spliced(source, n, included) =~= joined(head) + (text + joined(tail)));
    law_joined_lines_read_back(head, text + joined(tail));
    law_lines_of_texts_in_a_row(text, joined(tail));
    assert forall|k: int| 0 <= k < tail.len() implies is_plain_line(#[trigger] tail[k]) by {
        assert(tail[k] == all[k + n + 1]);
    }
    law_joined_lines_read_back(tail, Seq::empty());
    assert(joined(tail) + Seq::<char>::empty() =~= joined(tail));
    assert(tail + lines(Seq::empty()) =~= tail);
    assert(head + (lines(text) + tail) =~= head + lines(text) + tail);
}

/// A line ends with a line feed, or with a carriage return and a line feed; the last one
/// may also end with the text.
pub proof fn law_lines_end(line: Seq<char>, rest: Seq<char>)
    requires
        forall|k: int| 0 <= k < line.len() ==> #[trigger] line[k] != '\n',
    ensures
        line.len() == 0 || line.last() != '\r' ==> lines(line + seq!['\n'] + rest) == seq![line]
            + lines(rest),
        lines(line + seq!['\r', '\n'] + rest) == seq![line] + lines(rest),
        line.len() > 0 ==> lines(line) == seq![line],
        lines(Seq::<char>::empty()) == Seq::<Seq<char>>::empty(),
{
    lemma_line_found(line, rest);
    let longer = line + seq!['\r'];
    assert forall|k: int| 0 <= k < longer.len() implies #[trigger] longer[k] != '\n' by {
        if k < line.len() {
            assert(longer[k] == line[k]);
        }
    }
    lemma_line_found(longer, rest);
    assert(line + seq!['\r', '\n'] + rest =~= longer + seq!['\n'] + rest);
    assert(longer.drop_last() =~= line);
    if line.len() > 0 {
        lexer::lemma_find_char(line, 0, '\n');
        let end = lexer::find_char(line, 0, '\n');
        assert(end == line.len()) by {
            if end < line.len() {
                assert(line[end] == '\n');
            }
        }
    }
}

proof fn lemma_line_found(line: Seq<char>, rest: Seq<char>)
    requires
        forall|k: int| 0 <= k < line.len() ==> #[trigger] line[k] != '\n',
    ensures
        lines(line + seq!['\n'] + rest) == seq![line_text(line)] + lines(rest),
{
    let whole = line + seq!['\n'] + rest;
    assert(numerals::stands_at(whole, 0, line + seq!['\n'])) by {
        assert(whole.subrange(0, line.len() as int + 1) =~= line + seq!['\n']);
    }
    numerals::lemma_find(whole, 0, line, '\n');
    assert(whole.take(line.len() as int) =~= line);
    assert(whole.skip(line.len() as int + 1) =~= rest);
}

/// Whether a line asks for a text file: white space, and then the directive with the
/// quote before the path.
pub open spec fn asks_for_text(line: Seq<char>) -> bool {
    exists|n: int|
        {
            &&& 0 <= n <= line.len()
            &&& source::is_white(#[trigger] line.take(n))
            &&& numerals::stands_at(line, n, directive())
        }
}

/// The directive that takes in a text file, up to the path.
pub open spec fn directive() -> Seq<char> {
    seq!['#', 'i', 'n', 'c', 'l', 'u', 'd', 'e', ' ', '"']
}

proof fn lemma_directive()
    ensures
        "#include \""@ == directive(),
        directive().len() == 10,
{
    reveal_strlit("#include \"");
    assert("#include \""@ =~= directive());
}

/// What is left of a text without the white space at its start.
proof fn lemma_start_trimmed(line: Seq<char>) -> (n: int)
    ensures
        0 <= n <= line.len(),
        source::is_white(line.take(n)),
        text::trimmed_start(line) == line.skip(n),
    decreases line.len(),
{
    if line.len() > 0 && text::is_whitespace(line[0]) {
        source::law_white_space(line[0]);
        let m = lemma_start_trimmed(line.drop_first());
        let n = m + 1;
        assert(line.skip(n) =~= line.drop_first().skip(m));
        assert forall|k: int| 0 <= k < line.take(n).len() implies source::is_white_char(
            #[trigger] line.take(n)[k],
        ) by {
            if k > 0 {
                assert(line.take(n)[k] == line.drop_first().take(m)[k - 1]);
            }
        }
        n
    } else {
        assert(line.skip(0) =~= line);
        0
    }
}

/// What is left of a text without the white space at its end starts like the text, and
/// keeps what is no white space.
proof fn lemma_end_trimmed(line: Seq<char>)
    ensures
        text::trimmed_end(line).len() <= line.len(),
        text::trimmed_end(line) == line.take(text::trimmed_end(line).len() as int),
        forall|k: int|
            0 <= k < line.len() && !source::is_white_char(#[trigger] line[k]) ==> k
                < text::trimmed_end(line).len(),
    decreases line.len(),
{
    if line.len() > 0 && text::is_whitespace(line.last()) {
        source::law_white_space(line.last());
        let shorter = line.drop_last();
        lemma_end_trimmed(shorter);
        let end = text::trimmed_end(line).len() as int;
        assert(line.take(end) =~= shorter.take(end));
        assert forall|k: int|
            0 <= k < line.len() && !source::is_white_char(#[trigger] line[k]) implies k
            < text::trimmed_end(line).len() by {
            assert(k < shorter.len());
            assert(shorter[k] == line[k]);
        }
    } else {
        assert(line.take(line.len() as int) =~= line);
    }
}

/// The lines that take in text are those that ask for it.
pub proof fn law_include_lines(line: Seq<char>)
    ensures
        is_include_line(line) <==> asks_for_text(line),
{
    lemma_directive();
    let d = directive();
    let n = lemma_start_trimmed(line);
    let rest = line.skip(n);
    lemma_end_trimmed(rest);
    let t = text::trimmed(line);
    if is_include_line(line) {
        assert(d =~= t.subrange(0, 10));
        assert(line.subrange(n, n + 10) =~= d) by {
            assert forall|k: int| 0 <= k < 10 implies line[n + k] == d[k] by {
                assert(t.subrange(0, 10)[k] == t[k]);
                assert(t[k] == rest[k]);
            }
        }
        assert(numerals::stands_at(line, n, d));
        assert(source::is_white(line.take(n)));
    }
    if asks_for_text(line) {
        let m = choose|m: int|
            {
                &&& 0 <= m <= line.len()
                &&& source::is_white(#[trigger] line.take(m))
                &&& numerals::stands_at(line, m, d)
            };
        numerals::lemma_standing_char(line, m, d, 0);
        assert(line[m] == '#');
        let after = line.skip(m);
        source::lemma_trim_start(line.take(m), after);
        assert(line.take(m) + after =~= line);
        source::law_white_space('#');
        assert(after[0] == '#');
        assert(text::trimmed_start(after) == after);
        lemma_end_trimmed(after);
        numerals::lemma_standing_char(line, m, d, 9);
        assert(after[9] == '"');
        assert(!source::is_white_char(after[9]));
        assert(t.len() > 9);
        assert(d =~= t.subrange(0, 10)) by {
            assert forall|k: int| 0 <= k < 10 implies t[k] == d[k] by {
                numerals::lemma_standing_char(line, m, d, k);
                assert(t[k] == after[k]);
            }
        }
    }
}

/// The first line that asks for a text file is found.
proof fn lemma_include_at(
    before: Seq<Seq<char>>,
    lead: Seq<char>,
    named: Seq<char>,
    trail: Seq<char>,
    rest: Seq<char>,
)
    requires
        forall|k: int|
            0 <= k < before.len() ==> is_plain_line(#[trigger] before[k]) && !asks_for_text(
                before[k],
            ),
        source::is_white(lead),
        source::is_white(trail),
        named.len() == 0 || !source::is_white_char(named.last()),
        is_plain_line(lead + (directive() + named) + trail),
    ensures
        next_include(
            joined(before) + (lead + (directive() + named) + trail) + seq!['\n'] + rest,
        ) == match include_path(directive() + named) {
            Some(path) => Ok::<Option<(nat, Seq<char>)>, IncludeError>(Some((before.len(), path))),
            None => Err(IncludeError::NoPath(before.len() as usize)),
        },
{
    let t = directive() + named;
    let line = lead + t + trail;
    let tail = line + seq!['\n'] + rest;
    let whole = joined(before) + line + seq!['\n'] + rest;
    assert(whole =~= joined(before) + tail);
    law_joined_lines_read_back(before, tail);
    law_lines_end(line, rest);
    let all = lines(whole);
    assert(all == before + (seq![line] + lines(rest)));
    assert(all[before.len() as int] == line);
    lemma_directive();
    assert(t[0] == '#');
    if named.len() == 0 {
        assert(t.last() == '"');
    } else {
        assert(t.last() == named.last());
    }
    source::law_trimming(lead, t, trail);
    assert(asks_for_text(line)) by {
        assert(line.take(lead.len() as int) =~= lead);
        assert(line.subrange(lead.len() as int, lead.len() as int + 10) =~= directive());
        assert(numerals::stands_at(line, lead.len() as int, directive()));
    }
    law_include_lines(line);
    lemma_first_include(all, before, 0);
}

/// The quote of the directive is the first in its line.
proof fn lemma_first_quote(named: Seq<char>)
    ensures
        lexer::find_char(directive() + named, 0, '"') == 9,
{
    let t = directive() + named;
    let start = seq!['#', 'i', 'n', 'c', 'l', 'u', 'd', 'e', ' '];
    assert(t.subrange(0, 10) =~= start + seq!['"']);
    numerals::lemma_find(t, 0, start, '"');
}

/// The first line that asks for a text file is found, with the path between its quotes.
pub proof fn law_include_is_found(
    before: Seq<Seq<char>>,
    lead: Seq<char>,
    path: Seq<char>,
    trail: Seq<char>,
    rest: Seq<char>,
)
    requires
        forall|k: int|
            0 <= k < before.len() ==> is_plain_line(#[trigger] before[k]) && !asks_for_text(
                before[k],
            ),
        source::is_white(lead),
        source::is_white(trail),
        is_plain_line(lead + (directive() + (path + seq!['"'])) + trail),
    ensures
        next_include(
            joined(before) + (lead + (directive() + (path + seq!['"'])) + trail) + seq!['\n'] + rest,
        ) == Ok::<Option<(nat, Seq<char>)>, IncludeError>(Some((before.len(), path))),
{
    let named = path + seq!['"'];
    assert(named.last() == '"');
    lemma_include_at(before, lead, named, trail, rest);
    lemma_first_quote(named);
    let t = directive() + named;
    assert(t.subrange(10, t.len() - 1) =~= path);
}

/// A line that asks for a text file and has nothing behind the quote names no path.
pub proof fn law_include_without_a_path(
    before: Seq<Seq<char>>,
    lead: Seq<char>,
    trail: Seq<char>,
    rest: Seq<char>,
)
    requires
        forall|k: int|
            0 <= k < before.len() ==> is_plain_line(#[trigger] before[k]) && !asks_for_text(
                before[k],
            ),
        source::is_white(lead),
        source::is_white(trail),
        is_plain_line(lead + directive() + trail),
    ensures
        next_include(joined(before) + (lead + directive() + trail) + seq!['\n'] + rest) == Err::<
            Option<(nat, Seq<char>)>,
            IncludeError,
        >(IncludeError::NoPath(before.len() as usize)),
{
    assert(directive() + Seq::<char>::empty() =~= directive());
    lemma_include_at(before, lead, seq![], trail, rest);
    lemma_first_quote(seq![]);
}

proof fn lemma_first_include(all: Seq<Seq<char>>, before: Seq<Seq<char>>, i: int)
    requires
        0 <= i <= before.len() < all.len(),
        forall|k: int| 0 <= k < before.len() ==> #[trigger] all[k] == before[k],
        forall|k: int| 0 <= k < before.len() ==> !asks_for_text(#[trigger] before[k]),
        is_include_line(all[before.len() as int]),
    ensures
        first_include(all, i) == Some(before.len() as int),
    decreases before.len() - i,
{
    if i < before.len() {
        assert(all[i] == before[i]);
        assert(!asks_for_text(before[i]));
        law_include_lines(all[i]);
        lemma_first_include(all, before, i + 1);
    }
}

/// Where no line asks for a text file, none is found.
pub proof fn law_nothing_to_take_in(source: Seq<char>)
    requires
        forall|k: int| 0 <= k < lines(source).len() ==> !asks_for_text(#[trigger] lines(source)[k]),
    ensures
        next_include(source) == Ok::<Option<(nat, Seq<char>)>, IncludeError>(None),
{
    lemma_no_include(lines(source), 0);
}

proof fn lemma_no_include(all: Seq<Seq<char>>, i: int)
    requires
        forall|k: int| 0 <= k < all.len() ==> !asks_for_text(#[trigger] all[k]),
        0 <= i,
    ensures
        first_include(all, i) is None,
    decreases all.len() - i,
{
    if i < all.len() {
        law_include_lines(all[i]);
        lemma_no_include(all, i + 1);
    }
}

/// Taking in a file leaves the text before and after the line as it is.
pub proof fn law_splice_keeps_the_text_around(
    before: Seq<Seq<char>>,
    line: Seq<char>,
    after: Seq<Seq<char>>,
    included: Seq<char>,
)
    requires
        forall|k: int| 0 <= k < before.len() ==> is_plain_line(#[trigger] before[k]),
        forall|k: int| 0 <= k < after.len() ==> is_plain_line(#[trigger] after[k]),
        is_plain_line(line),
    ensures
        spliced(
            joined(before) + line + seq!['\n'] + joined(after),
            before.len(),
            included,
        ) == joined(before) + included + seq!['\n'] + joined(after),
{
    let tail = line + seq!['\n'] + joined(after);
    let source = joined(before) + line + seq!['\n'] + joined(after);
    assert(source =~= joined(before) + tail);
    law_joined_lines_read_back(before, tail);
    law_lines_end(line, joined(after));
    law_joined_lines_read_back(after, seq![]);
    assert(joined(after) + seq![] =~= joined(after));
    assert(lines(Seq::<char>::empty()) =~= Seq::empty());
    assert(after + Seq::<Seq<char>>::empty() =~= after);
    let all = lines(source);
    assert(all == before + (seq![line] + after));
    assert(all.take(before.len() as int) =~= before);
    assert(all.skip(before.len() as int + 1) =~= after);
}

/// Behind the last line, a file is appended.
pub proof fn law_splice_behind_the_last_line(
    all: Seq<Seq<char>>,
    line_number: nat,
    included: Seq<char>,
)
    requires
        forall|k: int| 0 <= k < all.len() ==> is_plain_line(#[trigger] all[k]),
        line_number >= all.len(),
    ensures
        spliced(joined(all), line_number, included) == joined(all) + included + seq!['\n'],
{
    law_joined_lines_read_back(all, seq![]);
    assert(joined(all) + seq![] =~= joined(all));
    assert(lines(Seq::<char>::empty()) =~= Seq::empty());
    assert(all + Seq::<Seq<char>>::empty() =~= all);
}

/// A binary file gives the data that was read; one that cannot be read gives no data
/// where it is optional, and fails otherwise.
pub proof fn law_binary_files(data: Seq<u8>, optional: bool)
    ensures
        binary_data(Some(data), optional) == Ok::<NodeView, IncludeError>(
            NodeView::IncludedBinary(data),
        ),
        binary_data(None, true) == Ok::<NodeView, IncludeError>(NodeView::IncludedBinary(seq![])),
        binary_data(None, false) == Err::<NodeView, IncludeError>(IncludeError::Unreadable),
{
}

} // verus!
