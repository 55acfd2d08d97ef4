//! Recognition dictionaries: one character per line, or the character list of
//! a model configuration.
use vstd::prelude::*;
use crate::text::{
    chars_of, count_leading_white, indentation, lines, lines_of, lists, part_of, same_text,
    string_of, strip_return, texts, trim, trim_start, trimmed,
};

verus! {

/// Why a dictionary was refused.
#[derive(Clone, Copy, Debug, PartialEq, Eq, Structural)]
pub enum DictionaryError {
    /// There is no entry.
    Empty,
    /// The entry with this number, counted from one, is empty.
    EmptyEntry(usize),
    /// A line of the character list that is not an entry.
    ExpectedEntry(usize),
    /// A single-quoted character without its closing quote.
    UnterminatedSingle(usize),
    /// A double-quoted character without its closing quote.
    UnterminatedDouble(usize),
}

/// What a list of strings holds, or the error.
pub open spec fn texts_of(result: Result<Vec<String>, DictionaryError>) -> Result<
    Seq<Seq<char>>,
    DictionaryError,
> {
    match result {
        Ok(strings) => Ok(texts(strings@)),
        Err(error) => Err(error),
    }
}

/// The text with each pair of single quotes made one, from left to right.
pub open spec fn unescaped(text: Seq<char>) -> Seq<char>
    decreases text.len(),
{
    if text.len() == 0 {
        Seq::empty()
    } else if text.len() >= 2 && text[0] == '\'' && text[1] == '\'' {
        seq!['\''] + unescaped(text.skip(2))
    } else {
        seq![text[0]] + unescaped(text.skip(1))
    }
}

/// What a scalar of the list stands for.
pub open spec fn scalar_of(value: Seq<char>, line: usize) -> Result<Seq<char>, DictionaryError> {
    if value.len() > 0 && value[0] == '\'' {
        if value.len() < 2 || value.last() != '\'' {
            Err(DictionaryError::UnterminatedSingle(line))
        } else {
            Ok(unescaped(value.subrange(1, value.len() - 1)))
        }
    } else if value.len() > 0 && value[0] == '"' {
        if value.len() < 2 || value.last() != '"' {
            Err(DictionaryError::UnterminatedDouble(line))
        } else {
            Ok(value.subrange(1, value.len() - 1))
        }
    } else {
        Ok(value)
    }
}

fn unescape(text: &[char]) -> (result: Vec<char>)
    ensures
        result@ == unescaped(text@),
{
    let mut result: Vec<char> = Vec::new();
    let mut index: usize = 0;
    let len: usize = text.len();
    proof {
        assert(text@.skip(0) =~= text@);
        assert(result@ + unescaped(text@) =~= unescaped(text@));
    }
    while index < len
        invariant
            len == text@.len(),
            index <= len,
            result@ + unescaped(text@.skip(index as int)) == unescaped(text@),
        decreases len - index,
    {
        let ghost rest = text@.skip(index as int);
        let ghost before = result@;
        assert(rest[0] == text@[index as int]);
        result.push(text[index]);
        if len - index >= 2 && text[index] == '\'' && text[index + 1] == '\'' {
            proof {
                assert(rest[1] == text@[index + 1]);
                assert(rest.skip(2) =~= text@.skip(index + 2));
                assert(before + unescaped(rest) =~= result@ + unescaped(text@.skip(index + 2)));
            }
            index = index + 2;
        } else {
            proof {
                if rest.len() >= 2 {
                    assert(rest[1] == text@[index + 1]);
                }
                assert(rest.skip(1) =~= text@.skip(index + 1));
                assert(before + unescaped(rest) =~= result@ + unescaped(text@.skip(index + 1)));
            }
            index = index + 1;
        }
    }
    proof {
        assert(text@.skip(len as int) =~= Seq::<char>::empty());
        assert(result@ + Seq::<char>::empty() =~= result@);
    }
    result
}

fn scalar(value: &[char], line: usize) -> (result: Result<String, DictionaryError>)
    ensures
        match result {
            Ok(text) => scalar_of(value@, line) == Ok::<Seq<char>, DictionaryError>(text@),
            Err(error) => scalar_of(value@, line) == Err::<Seq<char>, DictionaryError>(error),
        },
{
    let len: usize = value.len();
    if len > 0 && value[0] == '\'' {
        if len < 2 || value[len - 1] != '\'' {
            return Err(DictionaryError::UnterminatedSingle(line));
        }
        let inner: Vec<char> = part_of(value, 1, len - 1);
        return Ok(string_of(unescape(inner.as_slice()).as_slice()));
    }
    if len > 0 && value[0] == '"' {
        if len < 2 || value[len - 1] != '"' {
            return Err(DictionaryError::UnterminatedDouble(line));
        }
        return Ok(string_of(part_of(value, 1, len - 1).as_slice()));
    }
    Ok(string_of(value))
}

/// Reads one scalar of a character list: single-quoted, double-quoted or plain.
pub fn parse_yaml_scalar(value: &str, line: usize) -> (result: Result<String, DictionaryError>)
    ensures
        match result {
            Ok(text) => scalar_of(value@, line) == Ok::<Seq<char>, DictionaryError>(text@),
            Err(error) => scalar_of(value@, line) == Err::<Seq<char>, DictionaryError>(error),
        },
{
    scalar(chars_of(value).as_slice(), line)
}

/// The place of the first line that opens a character list, from `index` on.
pub open spec fn header_at(lines: Seq<Seq<char>>, index: int) -> Option<int>
    decreases lines.len() - index,
{
    if index < 0 || index >= lines.len() {
        None
    } else if trimmed(lines[index]) == "character_dict:"@ {
        Some(index)
    } else {
        header_at(lines, index + 1)
    }
}

/// Entries put before what a later part of the list gives.
pub open spec fn prepended(
    entries: Seq<Seq<char>>,
    rest: Result<Seq<Seq<char>>, DictionaryError>,
) -> Result<Seq<Seq<char>>, DictionaryError> {
    match rest {
        Ok(rest) => Ok(entries + rest),
        Err(error) => Err(error),
    }
}

/// The entries of the character list from the line at `index` on: blank lines
/// are passed over, and a line indented no more than the header ends the list.
pub open spec fn entries_from(lines: Seq<Seq<char>>, header: int, index: int) -> Result<
    Seq<Seq<char>>,
    DictionaryError,
>
    decreases lines.len() - index,
{
    if index < 0 || index >= lines.len() {
        Ok(Seq::empty())
    } else {
        let line = strip_return(lines[index]);
        let start = trim_start(line);
        if trimmed(line).len() == 0 {
            entries_from(lines, header, index + 1)
        } else if start.len() >= 2 && start[0] == '-' && start[1] == ' ' {
            match scalar_of(start.skip(2), (index + 1) as usize) {
                Ok(entry) => prepended(seq![entry], entries_from(lines, header, index + 1)),
                Err(error) => Err(error),
            }
        } else if indentation(line) <= header {
            Ok(Seq::empty())
        } else {
            Err(DictionaryError::ExpectedEntry((index + 1) as usize))
        }
    }
}

/// The character list of a model configuration, where there is one.
pub open spec fn character_list(contents: Seq<char>) -> Result<
    Option<Seq<Seq<char>>>,
    DictionaryError,
> {
    let lines = lines_of(contents);
    match header_at(lines, 0) {
        None => Ok(None),
        Some(index) => match entries_from(lines, indentation(lines[index]), index + 1) {
            Ok(entries) => Ok(Some(entries)),
            Err(error) => Err(error),
        },
    }
}

proof fn lemma_prepended(
    first: Seq<Seq<char>>,
    second: Seq<Seq<char>>,
    rest: Result<Seq<Seq<char>>, DictionaryError>,
)
    ensures
        prepended(first, prepended(second, rest)) == prepended(first + second, rest),
{
    if let Ok(entries) = rest {
        assert(first + (second + entries) =~= first + second + entries);
    }
}

fn list_entries(lines: &Vec<Vec<char>>, header: u128, start: usize) -> (result: Result<
    Vec<String>,
    DictionaryError,
>)
    ensures
        texts_of(result) == entries_from(lists(lines@), header as int, start as int),
{
    let ghost all = lists(lines@);
    let mut entries: Vec<String> = Vec::new();
    let mut index: usize = start;
    let len: usize = lines.len();
    proof {
        let whole = entries_from(all, header as int, start as int);
        if let Ok(rest) = whole {
            assert(texts(entries@) + rest =~= rest);
        }
    }
    while index < len
        invariant
            len == lines@.len(),
            all == lists(lines@),
            start <= index,
            prepended(texts(entries@), entries_from(all, header as int, index as int))
                == entries_from(all, header as int, start as int),
        decreases len - index,
    {
        let source: &Vec<char> = &lines[index];
        assert(all[index as int] == source@);
        let source_len: usize = source.len();
        let end: usize = if source_len > 0 && source[source_len - 1] == '\r' {
            source_len - 1
        } else {
            source_len
        };
        let line: Vec<char> = part_of(source.as_slice(), 0, end);
        assert(line@ =~= strip_return(source@));
        let blank: bool = trim(line.as_slice()).len() == 0;
        if blank {
            index = index + 1;
            continue;
        }
        let (white, bytes): (usize, u128) = count_leading_white(line.as_slice());
        let rest: Vec<char> = part_of(line.as_slice(), white, line.len());
        assert(rest@ =~= trim_start(line@));
        if rest.len() >= 2 && rest[0] == '-' && rest[1] == ' ' {
            let value: Vec<char> = part_of(rest.as_slice(), 2, rest.len());
            assert(value@ =~= rest@.skip(2));
            match scalar(value.as_slice(), index + 1) {
                Ok(entry) => {
                    let ghost before = texts(entries@);
                    proof {
                        lemma_prepended(
                            before,
                            seq![entry@],
                            entries_from(all, header as int, index + 1),
                        );
                    }
                    entries.push(entry);
                    assert(texts(entries@) =~= before + seq![entry@]);
                },
                Err(error) => {
                    return Err(error);
                },
            }
        } else if bytes <= header {
            assert(texts(entries@) + Seq::<Seq<char>>::empty() =~= texts(entries@));
            return Ok(entries);
        } else {
            return Err(DictionaryError::ExpectedEntry(index + 1));
        }
        index = index + 1;
    }
    assert(texts(entries@) + Seq::<Seq<char>>::empty() =~= texts(entries@));
    Ok(entries)
}

/// Reads the character list of a model configuration; `None` where the text
/// holds no such list.
pub fn parse_paddlex_character_dict(contents: &str) -> (result: Result<
    Option<Vec<String>>,
    DictionaryError,
>)
    ensures
        match result {
            Ok(Some(entries)) => character_list(contents@) == Ok::<
                Option<Seq<Seq<char>>>,
                DictionaryError,
            >(Some(texts(entries@))),
            Ok(None) => character_list(contents@) == Ok::<
                Option<Seq<Seq<char>>>,
                DictionaryError,
            >(None),
            Err(error) => character_list(contents@) == Err::<
                Option<Seq<Seq<char>>>,
                DictionaryError,
            >(error),
        },
{
    let all: Vec<Vec<char>> = lines(chars_of(contents).as_slice());
    let title: Vec<char> = chars_of("character_dict:");
    let ghost views = lists(all@);
    for index in 0..all.len()
        invariant
            views == lists(all@),
            views == lines_of(contents@),
            title@ == "character_dict:"@,
            header_at(views, 0) == header_at(views, index as int),
    {
        assert(views[index as int] == all@[index as int]@);
        let line: Vec<char> = trim(all[index].as_slice());
        if same_text(line.as_slice(), title.as_slice()) {
            let (_, header): (usize, u128) = count_leading_white(all[index].as_slice());
            return match list_entries(&all, header, index + 1) {
                Ok(entries) => Ok(Some(entries)),
                Err(error) => Err(error),
            };
        }
    }
    Ok(None)
}

/// The text without its leading byte-order marks.
pub open spec fn unmarked(text: Seq<char>) -> Seq<char>
    decreases text.len(),
{
    if text.len() > 0 && text[0] == '\u{feff}' {
        unmarked(text.skip(1))
    } else {
        text
    }
}

/// The entries before they are checked.
pub open spec fn raw_entries(contents: Seq<char>) -> Result<Seq<Seq<char>>, DictionaryError> {
    match character_list(contents) {
        Err(error) => Err(error),
        Ok(listed) => {
            let entries = match listed {
                Some(entries) => entries,
                None => lines_of(contents).map_values(|line: Seq<char>| strip_return(line)),
            };
            if entries.len() == 0 {
                Ok(entries)
            } else {
                Ok(entries.update(0, unmarked(entries[0])))
            }
        },
    }
}

/// Whether the entry at `index` is the first empty one.
pub open spec fn first_empty(entries: Seq<Seq<char>>, index: int) -> bool {
    &&& 0 <= index < entries.len()
    &&& entries[index].len() == 0
    &&& forall|i: int| 0 <= i < index ==> (#[trigger] entries[i]).len() > 0
}

/// Whether `result` is what the dictionary text gives.
pub open spec fn is_dictionary(
    contents: Seq<char>,
    result: Result<Seq<Seq<char>>, DictionaryError>,
) -> bool {
    match raw_entries(contents) {
        Err(error) => result == Err::<Seq<Seq<char>>, DictionaryError>(error),
        Ok(entries) => if entries.len() == 0 {
            result == Err::<Seq<Seq<char>>, DictionaryError>(DictionaryError::Empty)
        } else {
            match result {
                Ok(given) => given == entries && forall|i: int|
                    0 <= i < entries.len() ==> (#[trigger] entries[i]).len() > 0,
                Err(DictionaryError::EmptyEntry(line)) => first_empty(entries, line - 1),
                Err(_) => false,
            }
        },
    }
}

fn unmark(text: &str) -> (result: String)
    ensures
        result@ == unmarked(text@),
{
    let characters: Vec<char> = chars_of(text);
    let mut start: usize = 0;
    let len: usize = characters.len();
    assert(text@.skip(0) =~= text@);
    while start < len && characters[start] == '\u{feff}'
        invariant
            characters@ == text@,
            len == text@.len(),
            start <= len,
            unmarked(text@.skip(start as int)) == unmarked(text@),
        decreases len - start,
    {
        assert(text@.skip(start as int)[0] == text@[start as int]);
        assert(text@.skip(start as int).skip(1) =~= text@.skip(start + 1));
        start = start + 1;
    }
    proof {
        if start < len {
            assert(text@.skip(start as int)[0] == text@[start as int]);
        }
        assert(text@.subrange(start as int, len as int) =~= text@.skip(start as int));
    }
    string_of(part_of(characters.as_slice(), start, len).as_slice())
}

fn plain_entries(contents: &str) -> (result: Vec<String>)
    ensures
        texts(result@) == lines_of(contents@).map_values(|line: Seq<char>| strip_return(line)),
{
    let all: Vec<Vec<char>> = lines(chars_of(contents).as_slice());
    let ghost wanted = lines_of(contents@).map_values(|line: Seq<char>| strip_return(line));
    let mut entries: Vec<String> = Vec::new();
    assert(wanted.take(0) =~= texts(entries@));
    for index in 0..all.len()
        invariant
            lists(all@) == lines_of(contents@),
            wanted == lines_of(contents@).map_values(|line: Seq<char>| strip_return(line)),
            texts(entries@) == wanted.take(index as int),
    {
        let line: &Vec<char> = &all[index];
        assert(lists(all@)[index as int] == line@);
        let len: usize = line.len();
        let end: usize = if len > 0 && line[len - 1] == '\r' {
            len - 1
        } else {
            len
        };
        let entry: String = string_of(part_of(line.as_slice(), 0, end).as_slice());
        assert(entry@ =~= strip_return(line@));
        assert(wanted[index as int] == entry@);
        let ghost before = texts(entries@);
        entries.push(entry);
        assert(texts(entries@) =~= before.push(entry@));
        assert(texts(entries@) =~= wanted.take(index + 1));
    }
    assert(lists(all@).len() == all@.len());
    assert(wanted.take(wanted.len() as int) =~= wanted);
    entries
}

/// Reads a recognition dictionary. Each entry is one output class.
pub fn parse_dictionary(contents: &str) -> (result: Result<Vec<String>, DictionaryError>)
    ensures
        is_dictionary(contents@, texts_of(result)),
{
    let mut entries: Vec<String> = match parse_paddlex_character_dict(contents) {
        Err(error) => {
            return Err(error);
        },
        Ok(Some(entries)) => entries,
        Ok(None) => plain_entries(contents),
    };
    let ghost listed = texts(entries@);
    if entries.len() == 0 {
        return Err(DictionaryError::Empty);
    }
    let first: String = unmark(entries[0].as_str());
    entries.set(0, first);
    let ghost raw = texts(entries@);
    assert(raw =~= listed.update(0, unmarked(listed[0])));
    for index in 0..entries.len()
        invariant
            raw == texts(entries@),
            raw.len() > 0,
            raw_entries(contents@) == Ok::<Seq<Seq<char>>, DictionaryError>(raw),
            forall|i: int| 0 <= i < index ==> (#[trigger] raw[i]).len() > 0,
    {
        assert(raw[index as int] == entries@[index as int]@);
        let characters: Vec<char> = chars_of(entries[index].as_str());
        if characters.len() == 0 {
            assert(first_empty(raw, index as int));
            return Err(DictionaryError::EmptyEntry(index + 1));
        }
    }
    Ok(entries)
}

/// No dictionary that was accepted is empty or holds an empty entry.
pub proof fn lemma_dictionary_entries(
    contents: Seq<char>,
    result: Result<Seq<Seq<char>>, DictionaryError>,
)
    requires
        is_dictionary(contents, result),
    ensures
        match result {
            Ok(entries) => {
                &&& entries.len() > 0
                &&& forall|i: int| 0 <= i < entries.len() ==> (#[trigger] entries[i]).len() > 0
            },
            Err(_) => true,
        },
{
}

/// A text gives one result only: the dictionary is a function of the text.
pub proof fn lemma_dictionary_unique(
    contents: Seq<char>,
    first: Result<Seq<Seq<char>>, DictionaryError>,
    second: Result<Seq<Seq<char>>, DictionaryError>,
)
    requires
        is_dictionary(contents, first),
        is_dictionary(contents, second),
    ensures
        first == second,
{
    if let Ok(entries) = raw_entries(contents) {
        if entries.len() > 0 {
            match (first, second) {
                (
                    Err(DictionaryError::EmptyEntry(one)),
                    Err(DictionaryError::EmptyEntry(other)),
                ) => {
                    if one < other {
                        assert(entries[one - 1].len() > 0);
                    } else if other < one {
                        assert(entries[other - 1].len() > 0);
                    }
                },
                (Err(DictionaryError::EmptyEntry(one)), Ok(_)) => {
                    assert(entries[one - 1].len() > 0);
                },
                (Ok(_), Err(DictionaryError::EmptyEntry(other))) => {
                    assert(entries[other - 1].len() > 0);
                },
                _ => {},
            }
        }
    }
}

} // verus!
