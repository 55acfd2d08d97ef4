//! The names of a path.
use vstd::prelude::*;

verus! {

/// How a system writes its paths.
#[derive(Clone, Copy, Debug, PartialEq, Eq, Structural)]
pub enum PathStyle {
    /// Names are set apart by slashes.
    Posix,
    /// Names are set apart by slashes or backslashes, and a path may begin with
    /// a drive or a share.
    Windows,
}

impl PathStyle {
    /// What is written between names.
    pub open spec fn spec_separator(self) -> char {
        match self {
            PathStyle::Posix => '/',
            PathStyle::Windows => '\\',
        }
    }

    /// Whether a character sets names apart.
    pub open spec fn spec_separates(self, character: char) -> bool {
        character == '/' || character == self.spec_separator()
    }

    /// Whether a text begins with a drive: a letter and a colon.
    pub open spec fn drives(self, text: Seq<char>) -> bool {
        self == PathStyle::Windows && text.len() >= 2 && text[1] == ':' && ('a' <= text[0] <= 'z'
            || 'A' <= text[0] <= 'Z')
    }

    /// What is written between names.
    pub fn separator(self) -> (result: char)
        ensures
            result == self.spec_separator(),
    {
        match self {
            PathStyle::Posix => '/',
            PathStyle::Windows => '\\',
        }
    }

    /// Whether a character sets names apart.
    pub fn separates(self, character: char) -> (result: bool)
        ensures
            result == self.spec_separates(character),
    {
        character == '/' || character == self.separator()
    }

    /// Whether the text from `start` to `end` begins with a drive.
    pub fn begins_with_drive(self, characters: &[char], start: usize, end: usize) -> (result: bool)
        requires
            start <= end <= characters@.len(),
        ensures
            result == self.drives(characters@.subrange(start as int, end as int)),
    {
        let windows: bool = match self {
            PathStyle::Posix => false,
            PathStyle::Windows => true,
        };
        if !windows || end - start < 2 {
            return false;
        }
        let letter: char = characters[start];
        let colon: bool = characters[start + 1] == ':';
        colon && ('a' <= letter && letter <= 'z' || 'A' <= letter && letter <= 'Z')
    }
}

/// The number of characters before the first separator.
pub open spec fn name_len(style: PathStyle, path: Seq<char>) -> nat
    decreases path.len(),
{
    if path.len() == 0 || style.spec_separates(path[0]) {
        0
    } else {
        1 + name_len(style, path.skip(1))
    }
}

/// The names between the separators of a path.
pub open spec fn names_of(style: PathStyle, path: Seq<char>) -> Seq<Seq<char>>
    decreases path.len(),
{
    let len = name_len(style, path);
    if len >= path.len() {
        seq![path]
    } else {
        seq![path.take(len as int)] + names_of(style, path.skip(len as int + 1))
    }
}

/// Whether a name stands for the directory itself.
pub open spec fn stays(name: Seq<char>) -> bool {
    name.len() == 0 || name == seq!['.']
}

/// Whether a name leads to the directory above.
pub open spec fn climbs(name: Seq<char>) -> bool {
    name == seq!['.', '.']
}

/// A path with a further name. A name that begins with a drive replaces the path,
/// and a drive alone takes the name without a separator.
pub open spec fn with_name(style: PathStyle, path: Seq<char>, name: Seq<char>) -> Seq<char> {
    if style.drives(name) {
        name
    } else if path.len() == 0 || style.drives(path) && path.len() == 2 {
        path + name
    } else {
        path.push(style.spec_separator()) + name
    }
}

/// The names joined by separators, those that stand for the directory itself left out.
pub open spec fn joined_names(style: PathStyle, names: Seq<Seq<char>>) -> Seq<char>
    decreases names.len(),
{
    if names.len() == 0 {
        Seq::empty()
    } else {
        let before = joined_names(style, names.drop_last());
        if stays(names.last()) {
            before
        } else {
            with_name(style, before, names.last())
        }
    }
}

/// The last name that does not stand for the directory itself, unless it leads
/// upwards.
pub open spec fn last_name(names: Seq<Seq<char>>) -> Option<Seq<char>>
    decreases names.len(),
{
    if names.len() == 0 {
        None
    } else if stays(names.last()) {
        last_name(names.drop_last())
    } else if climbs(names.last()) {
        None
    } else {
        Some(names.last())
    }
}

/// The number of characters of the drive or the share that a path begins with:
/// behind two separators stand the names of a server and of its share.
pub open spec fn prefix_len(style: PathStyle, path: Seq<char>) -> int {
    if style.drives(path) {
        2
    } else if style == PathStyle::Windows && path.len() >= 2 && style.spec_separates(path[0])
        && style.spec_separates(path[1]) {
        let server = name_len(style, path.skip(2)) as int;
        if server == 0 || server + 2 >= path.len() {
            0
        } else {
            let share = name_len(style, path.skip(server + 3)) as int;
            if share == 0 {
                0
            } else {
                server + 3 + share
            }
        }
    } else {
        0
    }
}

/// The name of the file that a path leads to.
pub open spec fn file_name_of(style: PathStyle, path: Seq<char>) -> Option<Seq<char>> {
    last_name(names_of(style, path.skip(prefix_len(style, path))))
}

proof fn lemma_name_len(style: PathStyle, path: Seq<char>)
    ensures
        name_len(style, path) <= path.len(),
        name_len(style, path) < path.len() ==> style.spec_separates(
            path[name_len(style, path) as int],
        ),
        forall|i: int|
            0 <= i < name_len(style, path) ==> !style.spec_separates(#[trigger] path[i]),
    decreases path.len(),
{
    if path.len() > 0 && !style.spec_separates(path[0]) {
        lemma_name_len(style, path.skip(1));
        let n: int = name_len(style, path.skip(1)) as int;
        if n < path.len() - 1 {
            assert(path.skip(1)[n] == path[n + 1]);
        }
        assert forall|i: int| 0 <= i < name_len(style, path) implies !style.spec_separates(
            #[trigger] path[i],
        ) by {
            if i > 0 {
                assert(path[i] == path.skip(1)[i - 1]);
            }
        }
    }
}

/// Whether no character of a text sets names apart.
pub open spec fn is_name(style: PathStyle, text: Seq<char>) -> bool {
    forall|i: int| 0 <= i < text.len() ==> !style.spec_separates(#[trigger] text[i])
}

/// The names that do not stand for the directory itself.
pub open spec fn kept_names(names: Seq<Seq<char>>) -> Seq<Seq<char>>
    decreases names.len(),
{
    if names.len() == 0 {
        Seq::empty()
    } else if stays(names.last()) {
        kept_names(names.drop_last())
    } else {
        kept_names(names.drop_last()).push(names.last())
    }
}

/// A text without separators is a single name.
proof fn lemma_single_name(style: PathStyle, name: Seq<char>)
    requires
        is_name(style, name),
    ensures
        name_len(style, name) == name.len(),
        names_of(style, name) == seq![name],
{
    lemma_name_len(style, name);
    let len = name_len(style, name) as int;
    if len < name.len() {
        assert(style.spec_separates(name[len]));
    }
}

/// The names of a path hold no separators.
proof fn lemma_names(style: PathStyle, path: Seq<char>)
    ensures
        forall|i: int|
            0 <= i < names_of(style, path).len() ==> is_name(
                style,
                #[trigger] names_of(style, path)[i],
            ),
    decreases path.len(),
{
    lemma_name_len(style, path);
    let len = name_len(style, path) as int;
    let names = names_of(style, path);
    if len < path.len() {
        let rest = path.skip(len + 1);
        lemma_names(style, rest);
        assert forall|i: int| 0 <= i < names.len() implies is_name(style, #[trigger] names[i]) by {
            if i > 0 {
                assert(names[i] == names_of(style, rest)[i - 1]);
            } else {
                assert(names[0] =~= path.take(len));
            }
        }
    }
}

/// A name behind a separator is a further name.
proof fn lemma_further_name(style: PathStyle, path: Seq<char>, name: Seq<char>)
    requires
        is_name(style, name),
    ensures
        names_of(style, path.push(style.spec_separator()) + name) == names_of(style, path).push(
            name,
        ),
    decreases path.len(),
{
    let longer = path.push(style.spec_separator()) + name;
    let len = name_len(style, path) as int;
    lemma_name_len(style, path);
    lemma_name_len(style, longer);
    lemma_single_name(style, name);
    assert forall|i: int| 0 <= i < path.len() implies #[trigger] longer[i] == path[i] by {}
    assert(longer[path.len() as int] == style.spec_separator());
    let found = name_len(style, longer) as int;
    if found < len {
        assert(style.spec_separates(longer[found]));
        assert(!style.spec_separates(path[found]));
    }
    if found > len {
        assert(!style.spec_separates(longer[len]));
    }
    assert(longer.take(len) =~= path.take(len));
    if len == path.len() {
        assert(path.take(len) =~= path);
        assert(longer.skip(len + 1) =~= name);
        assert(names_of(style, longer) =~= seq![path].push(name));
    } else {
        let rest = path.skip(len + 1);
        lemma_further_name(style, rest, name);
        assert(longer.skip(len + 1) =~= rest.push(style.spec_separator()) + name);
        assert(names_of(style, longer) =~= names_of(style, path).push(name));
    }
}

/// Joined names are those of the path, where none of them begins with a drive.
proof fn lemma_joined(style: PathStyle, names: Seq<Seq<char>>)
    requires
        forall|i: int|
            0 <= i < names.len() ==> is_name(style, #[trigger] names[i]) && !style.drives(names[i]),
    ensures
        ({
            let path = joined_names(style, names);
            let kept = kept_names(names);
            &&& joined_names(style, kept) == path
            &&& kept.len() == 0 ==> path.len() == 0
            &&& kept.len() > 0 ==> {
                &&& path.len() > 0
                &&& !style.spec_separates(path[0])
                &&& !style.drives(path)
                &&& names_of(style, path) == kept
            }
            &&& forall|i: int| 0 <= i < kept.len() ==> names.contains(#[trigger] kept[i])
        }),
    decreases names.len(),
{
    let kept = kept_names(names);
    if names.len() > 0 {
        let head = names.drop_last();
        let last = names.last();
        assert(last == names[names.len() - 1]);
        assert forall|i: int| 0 <= i < head.len() implies is_name(style, #[trigger] head[i])
            && !style.drives(head[i]) by {
            assert(head[i] == names[i]);
        }
        lemma_joined(style, head);
        let before = joined_names(style, head);
        let earlier = kept_names(head);
        let path = joined_names(style, names);
        assert forall|i: int| 0 <= i < kept.len() implies names.contains(#[trigger] kept[i]) by {
            if i < earlier.len() {
                assert(kept[i] == earlier[i]);
                let j = choose|j: int| 0 <= j < head.len() && head[j] == earlier[i];
                assert(names[j] == kept[i]);
            }
        }
        if !stays(last) {
            assert(kept.drop_last() =~= earlier);
            lemma_single_name(style, last);
            assert(last[0] != style.spec_separator());
            if earlier.len() == 0 {
                assert(path =~= last);
                assert(kept =~= seq![last]);
            } else {
                lemma_further_name(style, before, last);
                assert(path[0] == before[0]);
                if before.len() == 1 {
                    assert(path[1] == style.spec_separator());
                } else {
                    assert(path[1] == before[1]);
                }
            }
        }
    } else {
        assert(kept =~= names);
    }
}

/// What is joined from the names of a text has those names that do not stand for
/// the directory itself, where none begins with a drive: it begins with neither a
/// separator nor a drive, and its own names joined are itself.
pub proof fn lemma_joined_again(style: PathStyle, text: Seq<char>)
    requires
        forall|i: int|
            0 <= i < names_of(style, text).len() ==> !style.drives(
                #[trigger] names_of(style, text)[i],
            ),
        joined_names(style, names_of(style, text)).len() > 0,
    ensures
        ({
            let names = names_of(style, text);
            let path = joined_names(style, names);
            &&& !style.spec_separates(path[0])
            &&& !style.drives(path)
            &&& names_of(style, path) == kept_names(names)
            &&& joined_names(style, names_of(style, path)) == path
            &&& forall|i: int|
                0 <= i < names_of(style, path).len() ==> names.contains(
                    #[trigger] names_of(style, path)[i],
                )
        }),
{
    lemma_names(style, text);
    lemma_joined(style, names_of(style, text));
}

/// The place behind the name that begins at `start`.
pub fn name_end(style: PathStyle, characters: &[char], start: usize) -> (result: usize)
    requires
        start <= characters@.len(),
    ensures
        start <= result <= characters@.len(),
        result == start + name_len(style, characters@.skip(start as int)),
{
    let ghost rest = characters@.skip(start as int);
    let len: usize = characters.len();
    let mut end: usize = start;
    proof {
        lemma_name_len(style, rest);
    }
    while end < len && !style.separates(characters[end])
        invariant
            len == characters@.len(),
            start <= end <= len,
            rest == characters@.skip(start as int),
            forall|i: int| 0 <= i < end - start ==> !style.spec_separates(#[trigger] rest[i]),
        decreases len - end,
    {
        assert(rest[end - start] == characters@[end as int]);
        end = end + 1;
    }
    proof {
        if end < len {
            assert(style.spec_separates(rest[end - start]));
        }
        if name_len(style, rest) < end - start {
            assert(style.spec_separates(rest[name_len(style, rest) as int]));
        }
    }
    end
}

/// The place behind the drive or the share that a path begins with.
fn prefix_end(style: PathStyle, characters: &[char]) -> (result: usize)
    ensures
        result <= characters@.len(),
        result == prefix_len(style, characters@),
{
    let len: usize = characters.len();
    assert(characters@.subrange(0, len as int) =~= characters@);
    if style.begins_with_drive(characters, 0, len) {
        return 2;
    }
    let windows: bool = match style {
        PathStyle::Posix => false,
        PathStyle::Windows => true,
    };
    if !windows || len < 2 || !style.separates(characters[0]) || !style.separates(characters[1]) {
        return 0;
    }
    let server: usize = name_end(style, characters, 2);
    if server == 2 || server == len {
        return 0;
    }
    let share: usize = name_end(style, characters, server + 1);
    if share == server + 1 {
        0
    } else {
        share
    }
}

/// The names of a text behind the first `start` characters: the first of them, and
/// those behind it where there are more.
pub proof fn lemma_next_name(style: PathStyle, text: Seq<char>, start: int)
    requires
        0 <= start <= text.len(),
    ensures
        ({
            let rest = text.skip(start);
            let end = start + name_len(style, rest);
            let name = text.subrange(start, end);
            &&& end <= text.len()
            &&& names_of(style, rest) == if end == text.len() {
                seq![name]
            } else {
                seq![name] + names_of(style, text.skip(end + 1))
            }
        }),
{
    let rest = text.skip(start);
    lemma_name_len(style, rest);
    let end = start + name_len(style, rest);
    assert(text.subrange(start, end) =~= rest.take(end - start));
    if end == text.len() {
        assert(text.subrange(start, end) =~= rest);
    } else {
        assert(rest.skip(end - start + 1) =~= text.skip(end + 1));
    }
}

/// Whether the name from `start` to `end` stands for the directory itself.
pub fn name_stays(characters: &[char], start: usize, end: usize) -> (result: bool)
    requires
        start <= end <= characters@.len(),
    ensures
        result == stays(characters@.subrange(start as int, end as int)),
{
    let ghost name = characters@.subrange(start as int, end as int);
    let size: usize = end - start;
    proof {
        if size == 1 && name[0] == '.' {
            assert(name =~= seq!['.']);
        }
    }
    size == 0 || (size == 1 && characters[start] == '.')
}

/// Whether the name from `start` to `end` leads to the directory above.
pub fn name_climbs(characters: &[char], start: usize, end: usize) -> (result: bool)
    requires
        start <= end <= characters@.len(),
    ensures
        result == climbs(characters@.subrange(start as int, end as int)),
{
    let ghost name = characters@.subrange(start as int, end as int);
    let size: usize = end - start;
    proof {
        if climbs(name) {
            assert(name.len() == 2);
            assert(name[0] == '.' && name[1] == '.');
        }
        if size == 2 {
            assert(name[0] == characters@[start as int] && name[1] == characters@[start + 1]);
            if name[0] == '.' && name[1] == '.' {
                assert(name =~= seq!['.', '.']);
            }
        }
    }
    size == 2 && characters[start] == '.' && characters[start + 1] == '.'
}

/// What is seen of a text that may be missing.
pub open spec fn seen(text: Option<String>) -> Option<Seq<char>> {
    match text {
        Some(text) => Some(text@),
        None => None,
    }
}

/// The name of the file that a path leads to.
#[verifier::spinoff_prover]
pub fn file_name(path: &str, style: PathStyle) -> (result: Option<String>)
    ensures
        seen(result) == file_name_of(style, path@),
{
    let characters: Vec<char> = crate::text::chars_of(path);
    let len: usize = characters.len();
    let ghost text = path@;
    let mut found: Option<(usize, usize)> = None;
    let mut start: usize = prefix_end(style, characters.as_slice());
    let mut more: bool = true;
    let ghost names = names_of(style, text.skip(start as int));
    let ghost mut done: Seq<Seq<char>> = Seq::empty();
    assert(done + names =~= names);
    while more
        invariant
            text == path@,
            characters@ == text,
            len == text.len(),
            start <= len,
            more ==> names == done + names_of(style, text.skip(start as int)),
            !more ==> names == done,
            match found {
                Some((from, to)) => from <= to <= len && last_name(done) == Some(
                    text.subrange(from as int, to as int),
                ),
                None => last_name(done) is None,
            },
        decreases (len - start) + if more {
            1int
        } else {
            0
        },
    {
        let end: usize = name_end(style, characters.as_slice(), start);
        let ghost name = text.subrange(start as int, end as int);
        proof {
            lemma_next_name(style, text, start as int);
            assert(done.push(name).drop_last() =~= done);
            if end == len {
                assert(names =~= done.push(name));
            } else {
                assert(names =~= done.push(name) + names_of(style, text.skip(end + 1)));
            }
            done = done.push(name);
        }
        if !name_stays(characters.as_slice(), start, end) {
            found = if name_climbs(characters.as_slice(), start, end) {
                None
            } else {
                Some((start, end))
            };
        }
        if end < len {
            start = end + 1;
        } else {
            start = len;
            more = false;
        }
    }
    match found {
        None => None,
        Some((from, to)) => Some(
            crate::text::string_of(
                vstd::slice::slice_subrange(characters.as_slice(), from, to),
            ),
        ),
    }
}

} // verus!
