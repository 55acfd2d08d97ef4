//! What reading a dictionary is for.
use vstd::prelude::*;
use crate::dictionary::{
    header_at, is_dictionary, raw_entries, scalar_of, unescaped, unmarked,
    DictionaryError,
};
use crate::text::{lemma_line_len, line_len, lines_of, strip_return, trimmed};

verus! {

/// Entries, each on a line of its own.
pub open spec fn written(entries: Seq<Seq<char>>) -> Seq<char>
    decreases entries.len(),
{
    if entries.len() == 0 {
        Seq::empty()
    } else {
        entries[0] + seq!['\n'] + written(entries.skip(1))
    }
}

/// Whether a text can stand on a line of its own.
pub open spec fn fits_line(text: Seq<char>) -> bool {
    !text.contains('\n') && (text.len() > 0 ==> text.last() != '\r')
}

/// The lines of entries that were written one to a line are the entries.
pub proof fn lemma_written_lines(entries: Seq<Seq<char>>)
    requires
        forall|i: int| 0 <= i < entries.len() ==> fits_line(#[trigger] entries[i]),
    ensures
        lines_of(written(entries)) == entries,
    decreases entries.len(),
{
    let text = written(entries);
    if entries.len() == 0 {
        assert(lines_of(text) =~= entries);
    } else {
        let first = entries[0];
        let rest = entries.skip(1);
        assert forall|i: int| 0 <= i < rest.len() implies fits_line(#[trigger] rest[i]) by {
            assert(rest[i] == entries[i + 1]);
        }
        lemma_written_lines(rest);
        lemma_line_len(text);
        let len: int = line_len(text) as int;
        assert(text[first.len() as int] == '\n');
        if len < first.len() {
            assert(text[len] == first[len]);
            assert(first.contains(first[len]));
        }
        assert(len == first.len());
        assert(text.take(len) =~= first);
        assert(text.skip(len + 1) =~= written(rest));
        assert(lines_of(text) =~= seq![first] + rest);
        assert(seq![first] + rest =~= entries);
    }
}

/// What a dictionary is for: entries that were written one to a line are read back, each
/// as it was and in their order. None of them is empty or begins the list of characters
/// of a configuration, and the first does not begin with a byte-order mark.
pub proof fn lemma_plain_dictionary(
    entries: Seq<Seq<char>>,
    result: Result<Seq<Seq<char>>, DictionaryError>,
)
    requires
        entries.len() > 0,
        forall|i: int|
            0 <= i < entries.len() ==> fits_line(#[trigger] entries[i]) && entries[i].len() > 0
                && trimmed(entries[i]) != "character_dict:"@,
        entries[0][0] != '\u{feff}',
        is_dictionary(written(entries), result),
    ensures
        result == Ok::<Seq<Seq<char>>, DictionaryError>(entries),
{
    lemma_written_lines(entries);
    lemma_no_header(entries, 0);
    let stripped = entries.map_values(|line: Seq<char>| strip_return(line));
    assert(stripped =~= entries);
    assert(unmarked(entries[0]) == entries[0]);
    assert(entries.update(0, entries[0]) =~= entries);
    assert(raw_entries(written(entries)) == Ok::<Seq<Seq<char>>, DictionaryError>(entries));
}

/// A byte-order mark before the first entry is no part of it.
pub proof fn lemma_marked_dictionary(
    entries: Seq<Seq<char>>,
    result: Result<Seq<Seq<char>>, DictionaryError>,
)
    requires
        entries.len() > 0,
        forall|i: int|
            0 <= i < entries.len() ==> fits_line(#[trigger] entries[i]) && entries[i].len() > 0
                && trimmed(entries[i]) != "character_dict:"@,
        trimmed(seq!['\u{feff}'] + entries[0]) != "character_dict:"@,
        entries[0][0] != '\u{feff}',
        is_dictionary(seq!['\u{feff}'] + written(entries), result),
    ensures
        result == Ok::<Seq<Seq<char>>, DictionaryError>(entries),
{
    let marked = entries.update(0, seq!['\u{feff}'] + entries[0]);
    assert(marked.skip(1) =~= entries.skip(1));
    assert(written(marked) =~= seq!['\u{feff}'] + written(entries));
    assert forall|i: int| 0 <= i < marked.len() implies fits_line(#[trigger] marked[i]) && trimmed(
        marked[i],
    ) != "character_dict:"@ by {
        if i == 0 {
            let text = marked[0];
            assert(text.last() == entries[0].last());
            if text.contains('\n') {
                let k = choose|k: int| 0 <= k < text.len() && text[k] == '\n';
                assert(entries[0][k - 1] == '\n');
            }
        } else {
            assert(marked[i] == entries[i]);
        }
    }
    lemma_written_lines(marked);
    lemma_no_header(marked, 0);
    let stripped = marked.map_values(|line: Seq<char>| strip_return(line));
    assert(stripped =~= marked);
    assert(marked[0].skip(1) =~= entries[0]);
    assert(unmarked(entries[0]) == entries[0]);
    assert(unmarked(marked[0]) == entries[0]);
    assert(marked.update(0, entries[0]) =~= entries);
    assert(raw_entries(written(marked)) == Ok::<Seq<Seq<char>>, DictionaryError>(entries));
}

/// Lines of which none is the header have no header.
proof fn lemma_no_header(lines: Seq<Seq<char>>, index: int)
    requires
        0 <= index <= lines.len(),
        forall|i: int| 0 <= i < lines.len() ==> trimmed(#[trigger] lines[i]) != "character_dict:"@,
    ensures
        header_at(lines, index) is None,
    decreases lines.len() - index,
{
    if index < lines.len() {
        let line = lines[index];
        lemma_no_header(lines, index + 1);
    }
}

/// A text in which every single quote is written twice.
pub open spec fn doubled(text: Seq<char>) -> Seq<char>
    decreases text.len(),
{
    if text.len() == 0 {
        Seq::empty()
    } else if text[0] == '\'' {
        seq!['\'', '\''] + doubled(text.skip(1))
    } else {
        seq![text[0]] + doubled(text.skip(1))
    }
}

/// Doubled quotes are read as one.
proof fn lemma_doubled(text: Seq<char>)
    ensures
        unescaped(doubled(text)) == text,
    decreases text.len(),
{
    let given = doubled(text);
    if text.len() == 0 {
        assert(unescaped(given) =~= text);
    } else if text[0] == '\'' {
        lemma_doubled(text.skip(1));
        assert(given[0] == '\'' && given[1] == '\'');
        assert(given.skip(2) =~= doubled(text.skip(1)));
        assert(seq!['\''] + text.skip(1) =~= text);
    } else {
        lemma_doubled(text.skip(1));
        assert(given[0] == text[0]);
        assert(given.skip(1) =~= doubled(text.skip(1)));
        assert(seq![text[0]] + text.skip(1) =~= text);
    }
}

/// What quotes in a list of characters are for: any text can be written between single
/// quotes, with those inside it doubled, and between double quotes as it is; without
/// quotes a text stands for itself unless it begins with one.
pub proof fn lemma_quoted(text: Seq<char>, line: usize)
    ensures
        scalar_of(seq!['\''] + doubled(text) + seq!['\''], line) == Ok::<
            Seq<char>,
            DictionaryError,
        >(text),
        scalar_of(seq!['"'] + text + seq!['"'], line) == Ok::<Seq<char>, DictionaryError>(text),
        text.len() == 0 || text[0] != '\'' && text[0] != '"' ==> scalar_of(text, line) == Ok::<
            Seq<char>,
            DictionaryError,
        >(text),
{
    let single = seq!['\''] + doubled(text) + seq!['\''];
    let double = seq!['"'] + text + seq!['"'];
    lemma_doubled(text);
    assert(single.subrange(1, single.len() - 1) =~= doubled(text));
    assert(double.subrange(1, double.len() - 1) =~= text);
    assert(single[0] == '\'' && single.last() == '\'');
    assert(double[0] == '"' && double.last() == '"');
}

} // verus!
