//! Strings as lists of characters.
use vstd::prelude::*;

verus! {

/// `String::push` appends a character to the string.
pub assume_specification[ String::push ](string: &mut String, character: char)
    ensures
        final(string)@ == old(string)@.push(character),
;

/// The characters of a string.
pub fn chars_of(text: &str) -> (result: Vec<char>)
    ensures
        result@ == text@,
{
    let mut result: Vec<char> = Vec::new();
    for character in it: text.chars()
        invariant
            it.seq() == text@,
            result@ == text@.take(it.index() as int),
    {
        result.push(character);
        assert(result@ =~= text@.take(it.index() + 1));
    }
    assert(text@.take(text@.len() as int) =~= text@);
    result
}

/// The string of a list of characters.
pub fn string_of(characters: &[char]) -> (result: String)
    ensures
        result@ == characters@,
{
    let mut result: String = String::new();
    assert(characters@.take(0) =~= Seq::<char>::empty());
    for index in 0..characters.len()
        invariant
            result@ == characters@.take(index as int),
    {
        result.push(characters[index]);
        assert(result@ =~= characters@.take(index + 1));
    }
    assert(characters@.take(characters@.len() as int) =~= characters@);
    result
}

/// What strings hold.
pub open spec fn texts(strings: Seq<String>) -> Seq<Seq<char>> {
    strings.map_values(|string: String| string@)
}

/// What lists of characters hold.
pub open spec fn lists(strings: Seq<Vec<char>>) -> Seq<Seq<char>> {
    strings.map_values(|string: Vec<char>| string@)
}

/// The characters that count as white space.
pub open spec fn white(character: char) -> bool {
    ||| '\u{9}' <= character <= '\u{d}'
    ||| character == ' '
    ||| character == '\u{85}'
    ||| character == '\u{a0}'
    ||| character == '\u{1680}'
    ||| '\u{2000}' <= character <= '\u{200a}'
    ||| character == '\u{2028}'
    ||| character == '\u{2029}'
    ||| character == '\u{202f}'
    ||| character == '\u{205f}'
    ||| character == '\u{3000}'
}

/// Whether a character counts as white space.
pub fn is_white(character: char) -> (result: bool)
    ensures
        result == white(character),
{
    ('\u{9}' <= character && character <= '\u{d}') || character == ' ' || character == '\u{85}'
        || character == '\u{a0}' || character == '\u{1680}' || ('\u{2000}' <= character && character
        <= '\u{200a}') || character == '\u{2028}' || character == '\u{2029}' || character
        == '\u{202f}' || character == '\u{205f}' || character == '\u{3000}'
}

/// The number of bytes that encode a character.
pub open spec fn encoded_len(character: char) -> int {
    if '\u{7f}' >= character {
        1
    } else if '\u{7ff}' >= character {
        2
    } else if '\u{ffff}' >= character {
        3
    } else {
        4
    }
}

/// The number of leading characters that are white space.
pub open spec fn leading_white(text: Seq<char>) -> nat
    decreases text.len(),
{
    if text.len() > 0 && white(text[0]) {
        1 + leading_white(text.skip(1))
    } else {
        0
    }
}

/// The text without leading white space.
pub open spec fn trim_start(text: Seq<char>) -> Seq<char> {
    text.skip(leading_white(text) as int)
}

/// The text without trailing white space.
pub open spec fn trim_end(text: Seq<char>) -> Seq<char>
    decreases text.len(),
{
    if text.len() > 0 && white(text.last()) {
        trim_end(text.drop_last())
    } else {
        text
    }
}

/// The number of bytes of the leading white space.
pub open spec fn indentation(text: Seq<char>) -> int
    decreases text.len(),
{
    if text.len() > 0 && white(text[0]) {
        encoded_len(text[0]) + indentation(text.skip(1))
    } else {
        0
    }
}

/// The text without one carriage return at its end.
pub open spec fn strip_return(text: Seq<char>) -> Seq<char> {
    if text.len() > 0 && text.last() == '\r' {
        text.drop_last()
    } else {
        text
    }
}

proof fn lemma_leading_white(text: Seq<char>)
    ensures
        leading_white(text) <= text.len(),
        forall|i: int| 0 <= i < leading_white(text) ==> white(#[trigger] text[i]),
        leading_white(text) < text.len() ==> !white(text[leading_white(text) as int]),
    decreases text.len(),
{
    if text.len() > 0 && white(text[0]) {
        lemma_leading_white(text.skip(1));
        assert forall|i: int| 0 <= i < leading_white(text) implies white(#[trigger] text[i]) by {
            if i > 0 {
                assert(text[i] == text.skip(1)[i - 1]);
            }
        }
        let n = leading_white(text.skip(1));
        if n < text.len() - 1 {
            assert(text.skip(1)[n as int] == text[n as int + 1]);
        }
    }
}

/// The number of leading white-space characters, and of their bytes.
pub fn count_leading_white(text: &[char]) -> (result: (usize, u128))
    ensures
        result.0 == leading_white(text@),
        result.1 == indentation(text@),
        result.0 <= text@.len(),
{
    let mut count: usize = 0;
    let mut bytes: u128 = 0;
    let len: usize = text.len();
    assert(text@.skip(0) =~= text@);
    while count < len && is_white(text[count])
        invariant
            len == text@.len(),
            count <= text@.len(),
            bytes <= count * 4,
            count + leading_white(text@.skip(count as int)) == leading_white(text@),
            bytes + indentation(text@.skip(count as int)) == indentation(text@),
        decreases text@.len() - count,
    {
        proof {
            assert(text@.skip(count as int)[0] == text@[count as int]);
            assert(text@.skip(count as int).skip(1) =~= text@.skip(count + 1));
        }
        let character: char = text[count];
        bytes = bytes + if '\u{7f}' >= character {
            1
        } else if '\u{7ff}' >= character {
            2
        } else if '\u{ffff}' >= character {
            3
        } else {
            4
        };
        count = count + 1;
    }
    proof {
        if count < text@.len() {
            assert(text@.skip(count as int)[0] == text@[count as int]);
        }
        lemma_leading_white(text@);
    }
    (count, bytes)
}

/// A part of a list of characters.
pub fn part_of(text: &[char], start: usize, end: usize) -> (result: Vec<char>)
    requires
        start <= end <= text@.len(),
    ensures
        result@ == text@.subrange(start as int, end as int),
{
    vstd::slice::slice_to_vec(vstd::slice::slice_subrange(text, start, end))
}

/// The length without trailing white space.
pub fn trimmed_len(text: &[char]) -> (result: usize)
    ensures
        result <= text@.len(),
        text@.take(result as int) == trim_end(text@),
{
    let mut len: usize = text.len();
    assert(text@.take(len as int) =~= text@);
    while len > 0 && is_white(text[len - 1])
        invariant
            len <= text@.len(),
            trim_end(text@.take(len as int)) == trim_end(text@),
        decreases len,
    {
        assert(text@.take(len as int).drop_last() =~= text@.take(len - 1));
        assert(text@.take(len as int).last() == text@[len - 1]);
        len = len - 1;
    }
    proof {
        if len > 0 {
            assert(text@.take(len as int).last() == text@[len - 1]);
        }
    }
    len
}

/// The text without white space at either end.
pub open spec fn trimmed(text: Seq<char>) -> Seq<char> {
    trim_end(trim_start(text))
}

/// The text without white space at either end.
pub fn trim(text: &[char]) -> (result: Vec<char>)
    ensures
        result@ == trimmed(text@),
{
    let (start, _): (usize, u128) = count_leading_white(text);
    let rest: Vec<char> = part_of(text, start, text.len());
    assert(rest@ =~= trim_start(text@));
    let len: usize = trimmed_len(rest.as_slice());
    part_of(rest.as_slice(), 0, len)
}

/// Whether two lists of characters are the same.
pub fn same_text(first: &[char], second: &[char]) -> (result: bool)
    ensures
        result == (first@ == second@),
{
    if first.len() != second.len() {
        return false;
    }
    for index in 0..first.len()
        invariant
            first@.len() == second@.len(),
            forall|i: int| 0 <= i < index ==> first@[i] == second@[i],
    {
        if first[index] != second[index] {
            return false;
        }
    }
    assert(first@ =~= second@);
    true
}

/// The place of the first line feed, or the length where there is none.
pub open spec fn line_len(text: Seq<char>) -> nat
    decreases text.len(),
{
    if text.len() == 0 || text[0] == '\n' {
        0
    } else {
        1 + line_len(text.skip(1))
    }
}

pub proof fn lemma_line_len(text: Seq<char>)
    ensures
        line_len(text) <= text.len(),
        line_len(text) < text.len() ==> text[line_len(text) as int] == '\n',
        forall|i: int| 0 <= i < line_len(text) ==> #[trigger] text[i] != '\n',
    decreases text.len(),
{
    if text.len() > 0 && text[0] != '\n' {
        lemma_line_len(text.skip(1));
        let n = line_len(text.skip(1));
        if n < text.len() - 1 {
            assert(text.skip(1)[n as int] == text[n as int + 1]);
        }
        assert forall|i: int| 0 <= i < line_len(text) implies #[trigger] text[i] != '\n' by {
            if i > 0 {
                assert(text[i] == text.skip(1)[i - 1]);
            }
        }
    }
}

/// The lines of a text. A line ends before a line feed, or before a carriage
/// return and a line feed; an ending behind the last line is optional.
pub open spec fn lines_of(text: Seq<char>) -> Seq<Seq<char>>
    decreases text.len(),
{
    if text.len() == 0 {
        Seq::empty()
    } else if line_len(text) >= text.len() {
        seq![text]
    } else {
        let len: int = line_len(text) as int;
        seq![strip_return(text.take(len))] + lines_of(text.skip(len + 1))
    }
}

/// The lines of a text.
pub fn lines(text: &[char]) -> (result: Vec<Vec<char>>)
    ensures
        lists(result@) == lines_of(text@),
{
    let mut result: Vec<Vec<char>> = Vec::new();
    let mut start: usize = 0;
    let len: usize = text.len();
    proof {
        assert(text@.skip(0) =~= text@);
        assert(lists(result@) + lines_of(text@) =~= lines_of(text@));
    }
    while start < len
        invariant
            len == text@.len(),
            start <= len,
            lists(result@) + lines_of(text@.skip(start as int)) == lines_of(text@),
        decreases len - start,
    {
        let ghost rest = text@.skip(start as int);
        let mut end: usize = start;
        proof {
            lemma_line_len(rest);
        }
        while end < len && text[end] != '\n'
            invariant
                len == text@.len(),
                start <= end <= len,
                rest == text@.skip(start as int),
                forall|i: int| 0 <= i < end - start ==> #[trigger] rest[i] != '\n',
            decreases len - end,
        {
            assert(rest[end - start] == text@[end as int]);
            end = end + 1;
        }
        proof {
            if end < len {
                assert(rest[end - start] == '\n');
                if line_len(rest) > end - start {
                    assert(rest[end - start] != '\n');
                }
            }
            if line_len(rest) < end - start {
                assert(rest[line_len(rest) as int] != '\n');
            }
            assert(line_len(rest) == end - start);
        }
        let ghost before = lists(result@);
        if end < len {
            let stop: usize = if end > start && text[end - 1] == '\r' {
                end - 1
            } else {
                end
            };
            let line: Vec<char> = part_of(text, start, stop);
            proof {
                let whole = rest.take(end - start);
                assert(whole =~= text@.subrange(start as int, end as int));
                assert(line@ =~= strip_return(whole));
                assert(rest.skip(end - start + 1) =~= text@.skip(end + 1));
            }
            result.push(line);
            proof {
                assert(lists(result@) =~= before.push(line@));
                assert(lines_of(rest) == seq![line@] + lines_of(text@.skip(end + 1)));
                assert(before + lines_of(rest) =~= before.push(line@) + lines_of(
                    text@.skip(end + 1),
                ));
            }
            start = end + 1;
        } else {
            let line: Vec<char> = part_of(text, start, end);
            assert(line@ =~= rest);
            result.push(line);
            proof {
                assert(lists(result@) =~= before.push(line@));
                assert(text@.skip(len as int) =~= Seq::<char>::empty());
                assert(before + lines_of(rest) =~= before.push(line@) + lines_of(
                    text@.skip(len as int),
                ));
            }
            start = len;
        }
    }
    proof {
        assert(text@.skip(len as int) =~= Seq::<char>::empty());
        assert(lists(result@) + Seq::<Seq<char>>::empty() =~= lists(result@));
    }
    result
}

/// The ten digits.
pub open spec fn digits() -> Seq<char> {
    seq!['0', '1', '2', '3', '4', '5', '6', '7', '8', '9']
}

/// A number in decimal, without leading zeros.
pub open spec fn decimal(value: nat) -> Seq<char>
    decreases value,
{
    if value < 10 {
        seq![digits()[value as int]]
    } else {
        decimal(value / 10).push(digits()[(value % 10) as int])
    }
}

fn write_digit(value: usize) -> (result: char)
    requires
        value < 10,
    ensures
        result == digits()[value as int],
{
    match value {
        0 => '0',
        1 => '1',
        2 => '2',
        3 => '3',
        4 => '4',
        5 => '5',
        6 => '6',
        7 => '7',
        8 => '8',
        _ => '9',
    }
}

/// Writes a number in decimal.
pub fn write_decimal(value: usize) -> (result: Vec<char>)
    ensures
        result@ == decimal(value as nat),
    decreases value,
{
    if value < 10 {
        let text: Vec<char> = vec![write_digit(value)];
        assert(text@ =~= decimal(value as nat));
        text
    } else {
        let mut text: Vec<char> = write_decimal(value / 10);
        text.push(write_digit(value % 10));
        text
    }
}

} // verus!
