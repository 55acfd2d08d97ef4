//! Where a model keeps tensor data outside its own file.
use vstd::prelude::*;
use crate::paths::{
    climbs, joined_names, kept_names, lemma_joined_again, lemma_next_name, name_climbs, name_end,
    name_stays, names_of, with_name, PathStyle,
};
use crate::text::{chars_of, lists, string_of, texts};

verus! {

/// Why the places of outside data could not be listed.
#[derive(Clone, Copy, Debug, PartialEq, Eq, Structural)]
pub enum SidecarError {
    /// A tensor with outside data does not tell where it is.
    NoLocation,
    /// A place is absolute or leads upwards.
    NotRelative,
    /// A place names nothing.
    EmptyPath,
}

/// What a location gives: the path to the data, or the error. The path is below the
/// model's directory, unless a name behind the first begins with a drive: that name
/// replaces what stands before it, as where paths are joined.
pub open spec fn sidecar_of(style: PathStyle, location: Seq<char>) -> Result<
    Seq<char>,
    SidecarError,
> {
    let names = names_of(style, location);
    if location.len() > 0 && style.spec_separates(location[0]) || style.drives(location)
        || exists|i: int| 0 <= i < names.len() && climbs(#[trigger] names[i]) {
        Err(SidecarError::NotRelative)
    } else if joined_names(style, names).len() == 0 {
        Err(SidecarError::EmptyPath)
    } else {
        Ok(joined_names(style, names))
    }
}

/// The path that a location stands for.
#[verifier::spinoff_prover]
pub fn relative_sidecar_path(location: &str, style: PathStyle) -> (result: Result<
    String,
    SidecarError,
>)
    ensures
        match result {
            Ok(path) => sidecar_of(style, location@) == Ok::<Seq<char>, SidecarError>(path@),
            Err(error) => sidecar_of(style, location@) == Err::<Seq<char>, SidecarError>(error),
        },
{
    let characters: Vec<char> = chars_of(location);
    let len: usize = characters.len();
    let ghost text = location@;
    let ghost names = names_of(style, text);
    assert(text.subrange(0, len as int) =~= text);
    if len > 0 && style.separates(characters[0]) || style.begins_with_drive(
        characters.as_slice(),
        0,
        len,
    ) {
        return Err(SidecarError::NotRelative);
    }
    let mut path: Vec<char> = Vec::new();
    let mut start: usize = 0;
    let mut more: bool = true;
    let ghost mut done: Seq<Seq<char>> = Seq::empty();
    proof {
        assert(text.skip(0) =~= text);
        assert(done + names =~= names);
    }
    while more
        invariant
            text == location@,
            characters@ == text,
            len == text.len(),
            start <= len,
            names == names_of(style, text),
            more ==> names == done + names_of(style, text.skip(start as int)),
            !more ==> names == done,
            path@ == joined_names(style, done),
            forall|i: int| 0 <= i < done.len() ==> !climbs(#[trigger] done[i]),
        decreases (len - start) + if more {
            1int
        } else {
            0
        },
    {
        let end: usize = name_end(style, characters.as_slice(), start);
        let ghost name = text.subrange(start as int, end as int);
        proof {
            lemma_next_name(style, text, start as int);
            if end == len {
                assert(names =~= done.push(name));
            } else {
                assert(names =~= done.push(name) + names_of(style, text.skip(end + 1)));
            }
            assert(names[done.len() as int] == name);
            assert(done.push(name).drop_last() =~= done);
        }
        if name_climbs(characters.as_slice(), start, end) {
            assert(climbs(names[done.len() as int]));
            return Err(SidecarError::NotRelative);
        }
        if !name_stays(characters.as_slice(), start, end) {
            add_name(&mut path, characters.as_slice(), start, end, style);
        }
        proof {
            done = done.push(name);
        }
        if end < len {
            start = end + 1;
        } else {
            start = len;
            more = false;
        }
    }
    assert(forall|i: int| 0 <= i < names.len() ==> !climbs(#[trigger] names[i]));
    if path.len() == 0 {
        return Err(SidecarError::EmptyPath);
    }
    Ok(string_of(path.as_slice()))
}

/// Puts the name from `start` to `end` behind a path.
fn add_name(path: &mut Vec<char>, characters: &[char], start: usize, end: usize, style: PathStyle)
    requires
        start <= end <= characters@.len(),
    ensures
        final(path)@ == with_name(
            style,
            old(path)@,
            characters@.subrange(start as int, end as int),
        ),
{
    let ghost name = characters@.subrange(start as int, end as int);
    let len: usize = path.len();
    assert(path@.subrange(0, len as int) =~= path@);
    if style.begins_with_drive(characters, start, end) {
        path.truncate(0);
        assert(path@ + name =~= name);
    } else if len > 0 && !(len == 2 && style.begins_with_drive(path.as_slice(), 0, len)) {
        path.push(style.separator());
    }
    let ghost lead = path@;
    assert(lead + name.take(0) =~= lead);
    for index in start..end
        invariant
            start <= end <= characters@.len(),
            name == characters@.subrange(start as int, end as int),
            path@ == lead + name.take(index - start),
    {
        path.push(characters[index]);
        assert(name[index - start] == characters@[index as int]);
        assert(path@ =~= lead + name.take(index + 1 - start));
    }
    assert(name.take(end - start) =~= name);
}

/// A path that was given is relative, and is given back unchanged where it is put in
/// again; in the Windows style this holds where no name of the location begins with a
/// drive.
pub proof fn lemma_sidecar_again(style: PathStyle, location: Seq<char>)
    requires
        sidecar_of(style, location) is Ok,
        style == PathStyle::Windows ==> forall|i: int|
            0 <= i < names_of(style, location).len() ==> !style.drives(
                #[trigger] names_of(style, location)[i],
            ),
    ensures
        ({
            let path = sidecar_of(style, location)->Ok_0;
            &&& path.len() > 0
            &&& !style.spec_separates(path[0])
            &&& !style.drives(path)
            &&& names_of(style, path) == kept_names(names_of(style, location))
            &&& sidecar_of(style, path) == Ok::<Seq<char>, SidecarError>(path)
        }),
{
    let names = names_of(style, location);
    lemma_joined_again(style, location);
    let path = joined_names(style, names);
    let again = names_of(style, path);
    assert forall|i: int| 0 <= i < again.len() implies !climbs(#[trigger] again[i]) by {
        assert(names.contains(again[i]));
        let j = choose|j: int| 0 <= j < names.len() && names[j] == again[i];
        assert(!climbs(names[j]));
    }
}

/// What a tensor tells of its data.
pub struct TensorEntry {
    /// 0 where the data is in the model.
    pub data_location: i32,
    /// Names and what they stand for.
    pub external_data: Vec<(String, String)>,
}

impl TensorEntry {
    /// Whether the data is outside the model.
    pub open spec fn external(self) -> bool {
        self.external_data@.len() > 0 || self.data_location != 0
    }

    /// Whether an entry tells the location.
    pub open spec fn tells(self, index: int) -> bool {
        0 <= index < self.external_data@.len() && self.external_data@[index].0@ == "location"@
    }

    /// What the first location entry at or behind `index` says.
    pub open spec fn location_from(self, index: int) -> Option<Seq<char>>
        decreases self.external_data@.len() - index,
    {
        if index < 0 || index >= self.external_data@.len() {
            None
        } else if self.tells(index) {
            Some(self.external_data@[index].1@)
        } else {
            self.location_from(index + 1)
        }
    }

    /// The path of the data: `None` where it is in the model.
    pub open spec fn path(self, style: PathStyle) -> Result<Option<Seq<char>>, SidecarError> {
        if !self.external() {
            Ok(None)
        } else {
            match self.location_from(0) {
                None => Err(SidecarError::NoLocation),
                Some(location) => match sidecar_of(style, location) {
                    Ok(path) => Ok(Some(path)),
                    Err(error) => Err(error),
                },
            }
        }
    }

    /// The path of the data.
    pub fn sidecar(&self, style: PathStyle) -> (result: Result<Option<String>, SidecarError>)
        ensures
            match result {
                Ok(Some(path)) => self.path(style) == Ok::<Option<Seq<char>>, SidecarError>(Some(path@)),
                Ok(None) => self.path(style) == Ok::<Option<Seq<char>>, SidecarError>(None),
                Err(error) => self.path(style) == Err::<Option<Seq<char>>, SidecarError>(error),
            },
    {
        if self.external_data.len() == 0 && self.data_location == 0 {
            return Ok(None);
        }
        let key: Vec<char> = chars_of("location");
        for index in 0..self.external_data.len()
            invariant
                key@ == "location"@,
                self.external(),
                self.location_from(0) == self.location_from(index as int),
        {
            let name: Vec<char> = chars_of(self.external_data[index].0.as_str());
            if crate::text::same_text(name.as_slice(), key.as_slice()) {
                assert(self.tells(index as int));
                return match relative_sidecar_path(self.external_data[index].1.as_str(), style) {
                    Ok(path) => Ok(Some(path)),
                    Err(error) => Err(error),
                };
            }
        }
        Err(SidecarError::NoLocation)
    }
}

/// A sparse tensor: its values and their places.
pub struct SparseEntry {
    pub values: Option<TensorEntry>,
    pub indices: Option<TensorEntry>,
}

/// What a node holds: tensors, and graphs of their own.
pub struct Attribute {
    pub tensor: Option<TensorEntry>,
    pub tensors: Vec<TensorEntry>,
    pub sparse_tensor: Option<SparseEntry>,
    pub sparse_tensors: Vec<SparseEntry>,
    pub graph: Option<Box<Graph>>,
    pub graphs: Vec<Graph>,
}

/// A node's attributes.
pub struct GraphNode {
    pub attributes: Vec<Attribute>,
}

/// A graph: its tensors and nodes.
pub struct Graph {
    pub initializers: Vec<TensorEntry>,
    pub sparse_initializers: Vec<SparseEntry>,
    pub nodes: Vec<GraphNode>,
}

/// The graphs of one part of the training information.
pub struct TrainingEntry {
    pub initialization: Option<Graph>,
    pub algorithm: Option<Graph>,
}

/// A function: its attributes and nodes.
pub struct FunctionEntry {
    pub attributes: Vec<Attribute>,
    pub nodes: Vec<GraphNode>,
}

/// A model.
pub struct Model {
    pub graph: Option<Graph>,
    pub training: Vec<TrainingEntry>,
    pub functions: Vec<FunctionEntry>,
}

/// The tensor, where there is one.
pub open spec fn maybe(tensor: Option<TensorEntry>) -> Seq<TensorEntry> {
    match tensor {
        Some(tensor) => seq![tensor],
        None => Seq::empty(),
    }
}

/// The tensors of a sparse tensor.
pub open spec fn of_sparse(tensor: SparseEntry) -> Seq<TensorEntry> {
    maybe(tensor.values) + maybe(tensor.indices)
}

/// The tensors of a sparse tensor, where there is one.
pub open spec fn of_maybe_sparse(tensor: Option<SparseEntry>) -> Seq<TensorEntry> {
    match tensor {
        Some(tensor) => of_sparse(tensor),
        None => Seq::empty(),
    }
}

/// The tensors of the first `count` sparse tensors.
pub open spec fn of_sparse_list(list: Seq<SparseEntry>, count: int) -> Seq<TensorEntry>
    decreases count,
{
    if count <= 0 {
        Seq::empty()
    } else {
        of_sparse_list(list, count - 1) + of_sparse(list[count - 1])
    }
}

/// The tensors of a graph, in the order in which they are looked at.
pub open spec fn of_graph(graph: Graph) -> Seq<TensorEntry>
    decreases graph, 0int,
{
    graph.initializers@ + of_sparse_list(
        graph.sparse_initializers@,
        graph.sparse_initializers@.len() as int,
    ) + of_nodes(graph.nodes, graph.nodes@.len() as int)
}

/// The tensors of the first `count` nodes.
pub open spec fn of_nodes(nodes: Vec<GraphNode>, count: int) -> Seq<TensorEntry>
    decreases nodes, count,
{
    if count <= 0 || count > nodes@.len() {
        Seq::empty()
    } else {
        let node = nodes@[count - 1];
        of_nodes(nodes, count - 1) + of_attributes(node.attributes, node.attributes@.len() as int)
    }
}

/// The tensors of the first `count` attributes.
pub open spec fn of_attributes(attributes: Vec<Attribute>, count: int) -> Seq<TensorEntry>
    decreases attributes, count,
{
    if count <= 0 || count > attributes@.len() {
        Seq::empty()
    } else {
        of_attributes(attributes, count - 1) + of_attribute(attributes@[count - 1])
    }
}

/// The tensors of an attribute.
pub open spec fn of_attribute(attribute: Attribute) -> Seq<TensorEntry>
    decreases attribute, 0int,
{
    let sparse = of_maybe_sparse(attribute.sparse_tensor);
    let inner = if attribute.graph is Some {
        of_graph(*attribute.graph->Some_0)
    } else {
        Seq::empty()
    };
    maybe(attribute.tensor) + attribute.tensors@ + sparse + of_sparse_list(
        attribute.sparse_tensors@,
        attribute.sparse_tensors@.len() as int,
    ) + inner + of_graphs(attribute.graphs, attribute.graphs@.len() as int)
}

/// The tensors of the first `count` graphs.
pub open spec fn of_graphs(graphs: Vec<Graph>, count: int) -> Seq<TensorEntry>
    decreases graphs, count,
{
    if count <= 0 || count > graphs@.len() {
        Seq::empty()
    } else {
        of_graphs(graphs, count - 1) + of_graph(graphs@[count - 1])
    }
}

/// Whether one character comes before another in paths: a separator comes first.
pub open spec fn character_before(style: PathStyle, first: char, second: char) -> bool {
    first != second && (first == style.spec_separator() || second
        != style.spec_separator() && first < second)
}

/// Whether one path comes before another, name by name.
pub open spec fn path_before(style: PathStyle, first: Seq<char>, second: Seq<char>) -> bool
    decreases first.len(),
{
    if second.len() == 0 {
        false
    } else if first.len() == 0 {
        true
    } else if first[0] != second[0] {
        character_before(style, first[0], second[0])
    } else {
        path_before(style, first.skip(1), second.skip(1))
    }
}

/// The list with a path put in its place, unless it is there.
pub open spec fn inserted(style: PathStyle, list: Seq<Seq<char>>, path: Seq<char>) -> Seq<Seq<char>>
    decreases list.len(),
{
    if list.len() == 0 {
        seq![path]
    } else if path == list[0] {
        list
    } else if path_before(style, path, list[0]) {
        seq![path] + list
    } else {
        seq![list[0]] + inserted(style, list.skip(1), path)
    }
}

/// The list with the paths of the tensors put in; the first tensor whose path
/// is refused gives the error.
pub open spec fn collected(style: PathStyle, list: Seq<Seq<char>>, tensors: Seq<TensorEntry>) -> Result<
    Seq<Seq<char>>,
    SidecarError,
>
    decreases tensors.len(),
{
    if tensors.len() == 0 {
        Ok(list)
    } else {
        match collected(style, list, tensors.drop_last()) {
            Err(error) => Err(error),
            Ok(before) => match tensors.last().path(style) {
                Err(error) => Err(error),
                Ok(None) => Ok(before),
                Ok(Some(path)) => Ok(inserted(style, before, path)),
            },
        }
    }
}

/// What was collected, with further tensors.
pub open spec fn collected_on(
    style: PathStyle,
    before: Result<Seq<Seq<char>>, SidecarError>,
    tensors: Seq<TensorEntry>,
) -> Result<Seq<Seq<char>>, SidecarError> {
    match before {
        Err(error) => Err(error),
        Ok(list) => collected(style, list, tensors),
    }
}

proof fn lemma_collected_concat(
    style: PathStyle,
    list: Seq<Seq<char>>,
    first: Seq<TensorEntry>,
    second: Seq<TensorEntry>,
)
    ensures
        collected(style, list, first + second) == collected_on(style, collected(style, list, first), second),
    decreases second.len(),
{
    if second.len() == 0 {
        assert(first + second =~= first);
    } else {
        lemma_collected_concat(style, list, first, second.drop_last());
        assert((first + second).drop_last() =~= first + second.drop_last());
        assert((first + second).last() == second.last());
    }
}

proof fn lemma_path_trichotomy(style: PathStyle, first: Seq<char>, second: Seq<char>)
    ensures
        first == second ==> !path_before(style, first, second),
        first != second ==> path_before(style, first, second) != path_before(style, second, first),
    decreases first.len(),
{
    if first.len() == 0 {
        assert(first == second || second.len() > 0) by {
            if second.len() == 0 {
                assert(first =~= second);
            }
        }
    } else if second.len() > 0 && first[0] == second[0] {
        lemma_path_trichotomy(style, first.skip(1), second.skip(1));
        assert(seq![first[0]] + first.skip(1) =~= first);
        assert(seq![second[0]] + second.skip(1) =~= second);
    }
}

proof fn lemma_path_transitive(style: PathStyle, first: Seq<char>, second: Seq<char>, third: Seq<char>)
    requires
        path_before(style, first, second),
        path_before(style, second, third),
    ensures
        path_before(style, first, third),
    decreases first.len(),
{
    if first.len() > 0 && second.len() > 0 && third.len() > 0 && first[0] == second[0] && second[0]
        == third[0] {
        lemma_path_transitive(style, first.skip(1), second.skip(1), third.skip(1));
    }
}

/// Whether a list of paths is in order, each listed once.
pub open spec fn in_order(style: PathStyle, list: Seq<Seq<char>>) -> bool {
    forall|i: int, j: int|
        0 <= i < j < list.len() ==> path_before(style, #[trigger] list[i], #[trigger] list[j])
}

proof fn lemma_inserted(style: PathStyle, list: Seq<Seq<char>>, path: Seq<char>)
    requires
        in_order(style, list),
    ensures
        in_order(style, inserted(style, list, path)),
        forall|other: Seq<char>|
            #[trigger] inserted(style, list, path).contains(other) <==> list.contains(other) || other
                == path,
    decreases list.len(),
{
    let after = inserted(style, list, path);
    if list.len() == 0 {
        assert(after[0] == path);
    } else if path == list[0] {
        assert(list.contains(list[0]));
    } else if path_before(style, path, list[0]) {
        assert(after =~= seq![path] + list);
        assert(after[0] == path);
        assert forall|i: int, j: int| 0 <= i < j < after.len() implies path_before(
            style,
            #[trigger] after[i],
            #[trigger] after[j],
        ) by {
            assert(after[j] == list[j - 1]);
            if i > 0 {
                assert(after[i] == list[i - 1]);
            } else if j > 1 {
                lemma_path_transitive(style, path, list[0], list[j - 1]);
            }
        }
        assert forall|other: Seq<char>| #[trigger] after.contains(other) <==> list.contains(other)
            || other == path by {
            if list.contains(other) {
                let i = choose|i: int| 0 <= i < list.len() && list[i] == other;
                assert(after[i + 1] == other);
            }
            if after.contains(other) {
                let i = choose|i: int| 0 <= i < after.len() && after[i] == other;
                if i > 0 {
                    assert(list[i - 1] == other);
                }
            }
        }
    } else {
        let rest = list.skip(1);
        assert forall|i: int, j: int| 0 <= i < j < rest.len() implies path_before(
            style,
            #[trigger] rest[i],
            #[trigger] rest[j],
        ) by {
            assert(rest[i] == list[i + 1] && rest[j] == list[j + 1]);
        }
        lemma_inserted(style, rest, path);
        lemma_path_trichotomy(style, path, list[0]);
        let tail = inserted(style, rest, path);
        assert(after =~= seq![list[0]] + tail);
        assert(after[0] == list[0]);
        assert forall|i: int, j: int| 0 <= i < j < after.len() implies path_before(
            style,
            #[trigger] after[i],
            #[trigger] after[j],
        ) by {
            assert(after[j] == tail[j - 1]);
            if i > 0 {
                assert(after[i] == tail[i - 1]);
            } else {
                assert(tail.contains(tail[j - 1]));
                if tail[j - 1] != path {
                    assert(rest.contains(tail[j - 1]));
                    let k = choose|k: int| 0 <= k < rest.len() && rest[k] == tail[j - 1];
                    assert(list[k + 1] == tail[j - 1]);
                }
            }
        }
        assert forall|other: Seq<char>| #[trigger] after.contains(other) <==> list.contains(other)
            || other == path by {
            if list.contains(other) {
                let i = choose|i: int| 0 <= i < list.len() && list[i] == other;
                if i == 0 {
                    assert(after[0] == other);
                } else {
                    assert(rest[i - 1] == other);
                    assert(rest.contains(other));
                    assert(tail.contains(other));
                    let k = choose|k: int| 0 <= k < tail.len() && tail[k] == other;
                    assert(after[k + 1] == other);
                }
            }
            if other == path {
                assert(tail.contains(other));
                let k = choose|k: int| 0 <= k < tail.len() && tail[k] == other;
                assert(after[k + 1] == other);
            }
            if after.contains(other) {
                let i = choose|i: int| 0 <= i < after.len() && after[i] == other;
                if i == 0 {
                    assert(list[0] == other);
                } else {
                    assert(tail[i - 1] == other);
                    assert(tail.contains(other));
                    if other != path {
                        assert(rest.contains(other));
                        let k = choose|k: int| 0 <= k < rest.len() && rest[k] == other;
                        assert(list[k + 1] == other);
                    }
                }
            }
        }
    }
}

/// The paths that are collected are in order, each once, and are those of the
/// tensors with outside data.
pub proof fn lemma_collected(style: PathStyle, tensors: Seq<TensorEntry>)
    ensures
        match collected(style, Seq::empty(), tensors) {
            Ok(list) => {
                &&& in_order(style, list)
                &&& forall|i: int| 0 <= i < tensors.len() ==> (#[trigger] tensors[i]).path(style) is Ok
                &&& forall|path: Seq<char>| #[trigger]
                    list.contains(path) <==> exists|i: int|
                        0 <= i < tensors.len() && (#[trigger] tensors[i]).path(style) == Ok::<
                            Option<Seq<char>>,
                            SidecarError,
                        >(Some(path))
            },
            Err(error) => exists|i: int|
                0 <= i < tensors.len() && (#[trigger] tensors[i]).path(style) == Err::<
                    Option<Seq<char>>,
                    SidecarError,
                >(error) && forall|j: int|
                    0 <= j < i ==> (#[trigger] tensors[j]).path(style) is Ok,
        },
    decreases tensors.len(),
{
    if tensors.len() > 0 {
        let head = tensors.drop_last();
        let last = tensors.last();
        lemma_collected(style, head);
        assert forall|i: int| 0 <= i < head.len() implies #[trigger] head[i] == tensors[i] by {}
        match collected(style, Seq::empty(), head) {
            Err(error) => {
                let i = choose|i: int|
                    0 <= i < head.len() && (#[trigger] head[i]).path(style) == Err::<
                        Option<Seq<char>>,
                        SidecarError,
                    >(error) && forall|j: int| 0 <= j < i ==> (#[trigger] head[j]).path(style) is Ok;
                assert forall|j: int| 0 <= j < i implies (#[trigger] tensors[j]).path(style) is Ok by {
                    assert(head[j].path(style) is Ok);
                }
                assert(tensors[i].path(style) == head[i].path(style));
            },
            Ok(before) => {
                assert forall|i: int| 0 <= i < head.len() implies (
                #[trigger] tensors[i]).path(style) is Ok by {
                    assert(head[i].path(style) is Ok);
                }
                assert(tensors[tensors.len() - 1] == last);
                match last.path(style) {
                    Err(error) => {},
                    Ok(found) => {
                        let list = collected(style, Seq::empty(), tensors)->Ok_0;
                        if let Some(path) = found {
                            lemma_inserted(style, before, path);
                        }
                        assert forall|path: Seq<char>| #[trigger]
                            list.contains(path) <==> exists|i: int|
                                0 <= i < tensors.len() && (#[trigger] tensors[i]).path(style) == Ok::<
                                    Option<Seq<char>>,
                                    SidecarError,
                                >(Some(path)) by {
                            if list.contains(path) {
                                if before.contains(path) {
                                    let i = choose|i: int|
                                        0 <= i < head.len() && (#[trigger] head[i]).path(style) == Ok::<
                                            Option<Seq<char>>,
                                            SidecarError,
                                        >(Some(path));
                                    assert(tensors[i].path(style) == head[i].path(style));
                                } else {
                                    assert(tensors[tensors.len() - 1].path(style) == Ok::<
                                        Option<Seq<char>>,
                                        SidecarError,
                                    >(Some(path)));
                                }
                            }
                            if exists|i: int|
                                0 <= i < tensors.len() && (#[trigger] tensors[i]).path(style) == Ok::<
                                    Option<Seq<char>>,
                                    SidecarError,
                                >(Some(path)) {
                                let i = choose|i: int|
                                    0 <= i < tensors.len() && (#[trigger] tensors[i]).path(style)
                                        == Ok::<Option<Seq<char>>, SidecarError>(Some(path));
                                if i < head.len() {
                                    assert(head[i].path(style) == tensors[i].path(style));
                                    assert(before.contains(path));
                                }
                            }
                        }
                    },
                }
            },
        }
    }
}

fn is_path_before(style: PathStyle, first: &Vec<char>, second: &Vec<char>) -> (result: bool)
    ensures
        result == path_before(style, first@, second@),
{
    let mut index: usize = 0;
    assert(first@.skip(0) =~= first@);
    assert(second@.skip(0) =~= second@);
    loop
        invariant
            index <= first@.len(),
            index <= second@.len(),
            path_before(style, first@.skip(index as int), second@.skip(index as int)) == path_before(
                style,
                first@,
                second@,
            ),
        decreases first@.len() - index,
    {
        if index >= second.len() {
            return false;
        }
        if index >= first.len() {
            return true;
        }
        let one: char = first[index];
        let other: char = second[index];
        assert(first@.skip(index as int)[0] == one);
        assert(second@.skip(index as int)[0] == other);
        if one != other {
            return one == style.separator() || other != style.separator() && one < other;
        }
        assert(first@.skip(index as int).skip(1) =~= first@.skip(index + 1));
        assert(second@.skip(index as int).skip(1) =~= second@.skip(index + 1));
        index = index + 1;
    }
}

fn insert_path(style: PathStyle, list: &mut Vec<Vec<char>>, path: Vec<char>)
    ensures
        lists(final(list)@) == inserted(style, lists(old(list)@), path@),
{
    let ghost all = lists(list@);
    let mut index: usize = 0;
    proof {
        assert(all.skip(0) =~= all);
        assert(all.take(0) + inserted(style, all, path@) =~= inserted(style, all, path@));
    }
    while index < list.len()
        invariant
            all == lists(list@),
            all == lists(old(list)@),
            index <= list@.len(),
            all.take(index as int) + inserted(style, all.skip(index as int), path@) == inserted(
                style,
                all,
                path@,
            ),
        decreases list@.len() - index,
    {
        let ghost rest = all.skip(index as int);
        assert(rest[0] == list@[index as int]@);
        if crate::text::same_text(path.as_slice(), list[index].as_slice()) {
            assert(all.take(index as int) + rest =~= all);
            return;
        }
        if is_path_before(style, &path, &list[index]) {
            let ghost wanted = all.take(index as int) + (seq![path@] + rest);
            list.insert(index, path);
            assert(lists(list@) =~= wanted);
            return;
        }
        proof {
            assert(rest.skip(1) =~= all.skip(index + 1));
            assert(all.take(index as int) + (seq![rest[0]] + inserted(style, all.skip(index + 1), path@))
                =~= all.take(index + 1) + inserted(style, all.skip(index + 1), path@));
        }
        index = index + 1;
    }
    proof {
        assert(all.skip(index as int) =~= Seq::<Seq<char>>::empty());
        assert(all.take(index as int) =~= all);
    }
    list.push(path);
    assert(lists(list@) =~= all + seq![path@]);
}

/// Whether a call has collected the tensors.
pub open spec fn is_collected(
    style: PathStyle,
    before: Seq<Vec<char>>,
    tensors: Seq<TensorEntry>,
    after: Seq<Vec<char>>,
    result: Result<(), SidecarError>,
) -> bool {
    match result {
        Ok(()) => collected(style, lists(before), tensors) == Ok::<
            Seq<Seq<char>>,
            SidecarError,
        >(lists(after)),
        Err(error) => collected(style, lists(before), tensors) == Err::<
            Seq<Seq<char>>,
            SidecarError,
        >(error),
    }
}

fn collect_external_data_from_tensor(
    style: PathStyle,
    tensor: &TensorEntry,
    locations: &mut Vec<Vec<char>>,
) -> (result: Result<(), SidecarError>)
    ensures
        is_collected(style, old(locations)@, seq![*tensor], final(locations)@, result),
{
    proof {
        let one = seq![*tensor];
        assert(one.drop_last() =~= Seq::<TensorEntry>::empty());
        assert(one.last() == *tensor);
        assert(collected(style, lists(locations@), one.drop_last()) == Ok::<
            Seq<Seq<char>>,
            SidecarError,
        >(lists(locations@)));
    }
    match tensor.sidecar(style) {
        Err(error) => Err(error),
        Ok(None) => Ok(()),
        Ok(Some(path)) => {
            insert_path(style, locations, chars_of(path.as_str()));
            Ok(())
        },
    }
}

fn collect_maybe(style: PathStyle, tensor: &Option<TensorEntry>, locations: &mut Vec<Vec<char>>) -> (result: Result<
    (),
    SidecarError,
>)
    ensures
        is_collected(style, old(locations)@, maybe(*tensor), final(locations)@, result),
{
    match tensor {
        Some(tensor) => collect_external_data_from_tensor(style, tensor, locations),
        None => Ok(()),
    }
}

fn collect_list(style: PathStyle, tensors: &Vec<TensorEntry>, locations: &mut Vec<Vec<char>>) -> (result: Result<
    (),
    SidecarError,
>)
    ensures
        is_collected(style, old(locations)@, tensors@, final(locations)@, result),
{
    let ghost before = locations@;
    assert(tensors@.take(0) =~= Seq::<TensorEntry>::empty());
    for index in 0..tensors.len()
        invariant
            before == old(locations)@,
            is_collected(style, before, tensors@.take(index as int), locations@, Ok(())),
    {
        let ghost head = tensors@.take(index as int);
        let ghost one = seq![tensors@[index as int]];
        proof {
            lemma_collected_concat(style, lists(before), head, one);
            assert(head + one =~= tensors@.take(index + 1));
        }
        match collect_external_data_from_tensor(style, &tensors[index], locations) {
            Ok(()) => {},
            Err(error) => {
                proof {
                    lemma_collected_concat(
                        style,
                        lists(before),
                        tensors@.take(index + 1),
                        tensors@.skip(index + 1),
                    );
                    assert(tensors@.take(index + 1) + tensors@.skip(index + 1) =~= tensors@);
                }
                return Err(error);
            },
        }
    }
    assert(tensors@.take(tensors@.len() as int) =~= tensors@);
    Ok(())
}

fn collect_sparse(style: PathStyle, tensor: &SparseEntry, locations: &mut Vec<Vec<char>>) -> (result: Result<
    (),
    SidecarError,
>)
    ensures
        is_collected(style, old(locations)@, of_sparse(*tensor), final(locations)@, result),
{
    proof {
        lemma_collected_concat(
            style,
            lists(locations@),
            maybe(tensor.values),
            maybe(tensor.indices),
        );
    }
    match collect_maybe(style, &tensor.values, locations) {
        Err(error) => Err(error),
        Ok(()) => collect_maybe(style, &tensor.indices, locations),
    }
}

proof fn lemma_sparse_split(list: Seq<SparseEntry>, count: int, total: int)
    requires
        0 <= count <= total,
    ensures
        exists|rest: Seq<TensorEntry>|
            of_sparse_list(list, total) == #[trigger] (of_sparse_list(list, count) + rest),
    decreases total - count,
{
    if count == total {
        assert(of_sparse_list(list, total) =~= of_sparse_list(list, count) + Seq::<
            TensorEntry,
        >::empty());
    } else {
        lemma_sparse_split(list, count, total - 1);
        let rest = choose|rest: Seq<TensorEntry>|
            of_sparse_list(list, total - 1) == #[trigger] (of_sparse_list(list, count) + rest);
        assert(of_sparse_list(list, total) =~= of_sparse_list(list, count) + (rest + of_sparse(
            list[total - 1],
        )));
    }
}

fn collect_sparse_list(style: PathStyle, list: &Vec<SparseEntry>, locations: &mut Vec<Vec<char>>) -> (result: Result<
    (),
    SidecarError,
>)
    ensures
        is_collected(
            style,
            old(locations)@,
            of_sparse_list(list@, list@.len() as int),
            final(locations)@,
            result,
        ),
{
    let ghost before = locations@;
    for index in 0..list.len()
        invariant
            before == old(locations)@,
            is_collected(style, before, of_sparse_list(list@, index as int), locations@, Ok(())),
    {
        proof {
            lemma_collected_concat(
                style,
                lists(before),
                of_sparse_list(list@, index as int),
                of_sparse(list@[index as int]),
            );
        }
        match collect_sparse(style, &list[index], locations) {
            Ok(()) => {},
            Err(error) => {
                proof {
                    lemma_sparse_split(list@, index + 1, list@.len() as int);
                    let done = of_sparse_list(list@, index + 1);
                    let rest = choose|rest: Seq<TensorEntry>|
                        of_sparse_list(list@, list@.len() as int) == #[trigger] (done + rest);
                    lemma_collected_concat(style, lists(before), done, rest);
                }
                return Err(error);
            },
        }
    }
    Ok(())
}

proof fn lemma_nodes_error(
    style: PathStyle,
    list: Seq<Seq<char>>,
    nodes: Vec<GraphNode>,
    count: int,
    total: int,
)
    requires
        0 <= count <= total <= nodes@.len(),
        collected(style, list, of_nodes(nodes, count)) is Err,
    ensures
        collected(style, list, of_nodes(nodes, total)) == collected(style, list, of_nodes(nodes, count)),
    decreases total,
{
    if count < total {
        lemma_nodes_error(style, list, nodes, count, total - 1);
        let node = nodes@[total - 1];
        lemma_collected_concat(
            style,
            list,
            of_nodes(nodes, total - 1),
            of_attributes(node.attributes, node.attributes@.len() as int),
        );
    }
}

proof fn lemma_attributes_error(
    style: PathStyle,
    list: Seq<Seq<char>>,
    attributes: Vec<Attribute>,
    count: int,
    total: int,
)
    requires
        0 <= count <= total <= attributes@.len(),
        collected(style, list, of_attributes(attributes, count)) is Err,
    ensures
        collected(style, list, of_attributes(attributes, total)) == collected(
            style,
            list,
            of_attributes(attributes, count),
        ),
    decreases total,
{
    if count < total {
        lemma_attributes_error(style, list, attributes, count, total - 1);
        lemma_collected_concat(
            style,
            list,
            of_attributes(attributes, total - 1),
            of_attribute(attributes@[total - 1]),
        );
    }
}

proof fn lemma_graphs_error(style: PathStyle, list: Seq<Seq<char>>, graphs: Vec<Graph>, count: int, total: int)
    requires
        0 <= count <= total <= graphs@.len(),
        collected(style, list, of_graphs(graphs, count)) is Err,
    ensures
        collected(style, list, of_graphs(graphs, total)) == collected(style, list, of_graphs(graphs, count)),
    decreases total,
{
    if count < total {
        lemma_graphs_error(style, list, graphs, count, total - 1);
        lemma_collected_concat(style, list, of_graphs(graphs, total - 1), of_graph(graphs@[total - 1]));
    }
}

fn collect_external_data_from_graph(
    style: PathStyle,
    graph: &Graph,
    locations: &mut Vec<Vec<char>>,
) -> (result: Result<(), SidecarError>)
    ensures
        is_collected(style, old(locations)@, of_graph(*graph), final(locations)@, result),
    decreases *graph, 0int,
{
    proof {
        let start = lists(locations@);
        let sparse = of_sparse_list(
            graph.sparse_initializers@,
            graph.sparse_initializers@.len() as int,
        );
        let nodes = of_nodes(graph.nodes, graph.nodes@.len() as int);
        lemma_collected_concat(style, start, graph.initializers@, sparse);
        lemma_collected_concat(style, start, graph.initializers@ + sparse, nodes);
    }
    match collect_list(style, &graph.initializers, locations) {
        Ok(()) => {},
        Err(error) => {
            return Err(error);
        },
    }
    match collect_sparse_list(style, &graph.sparse_initializers, locations) {
        Ok(()) => {},
        Err(error) => {
            return Err(error);
        },
    }
    collect_nodes(style, &graph.nodes, locations)
}

fn collect_nodes(style: PathStyle, nodes: &Vec<GraphNode>, locations: &mut Vec<Vec<char>>) -> (result: Result<
    (),
    SidecarError,
>)
    ensures
        is_collected(
            style,
            old(locations)@,
            of_nodes(*nodes, nodes@.len() as int),
            final(locations)@,
            result,
        ),
    decreases *nodes, nodes@.len(),
{
    let ghost before = locations@;
    for index in 0..nodes.len()
        invariant
            before == old(locations)@,
            is_collected(style, before, of_nodes(*nodes, index as int), locations@, Ok(())),
    {
        let node: &GraphNode = &nodes[index];
        proof {
            lemma_collected_concat(
                style,
                lists(before),
                of_nodes(*nodes, index as int),
                of_attributes(node.attributes, node.attributes@.len() as int),
            );
        }
        match collect_attributes(style, &node.attributes, locations) {
            Ok(()) => {},
            Err(error) => {
                proof {
                    lemma_nodes_error(style, lists(before), *nodes, index + 1, nodes@.len() as int);
                }
                return Err(error);
            },
        }
    }
    Ok(())
}

fn collect_attributes(
    style: PathStyle,
    attributes: &Vec<Attribute>,
    locations: &mut Vec<Vec<char>>,
) -> (result: Result<(), SidecarError>)
    ensures
        is_collected(
            style,
            old(locations)@,
            of_attributes(*attributes, attributes@.len() as int),
            final(locations)@,
            result,
        ),
    decreases *attributes, attributes@.len(),
{
    let ghost before = locations@;
    for index in 0..attributes.len()
        invariant
            before == old(locations)@,
            is_collected(style, before, of_attributes(*attributes, index as int), locations@, Ok(())),
    {
        let attribute: &Attribute = &attributes[index];
        proof {
            lemma_collected_concat(
                style,
                lists(before),
                of_attributes(*attributes, index as int),
                of_attribute(*attribute),
            );
        }
        match collect_attribute(style, attribute, locations) {
            Ok(()) => {},
            Err(error) => {
                proof {
                    lemma_attributes_error(
                        style,
                        lists(before),
                        *attributes,
                        index + 1,
                        attributes@.len() as int,
                    );
                }
                return Err(error);
            },
        }
    }
    Ok(())
}

fn collect_attribute(style: PathStyle, attribute: &Attribute, locations: &mut Vec<Vec<char>>) -> (result: Result<
    (),
    SidecarError,
>)
    ensures
        is_collected(style, old(locations)@, of_attribute(*attribute), final(locations)@, result),
    decreases *attribute, 0int,
{
    proof {
        let start = lists(locations@);
        let sparse = of_maybe_sparse(attribute.sparse_tensor);
        let inner = if attribute.graph is Some {
            of_graph(*attribute.graph->Some_0)
        } else {
            Seq::empty()
        };
        let several = of_sparse_list(
            attribute.sparse_tensors@,
            attribute.sparse_tensors@.len() as int,
        );
        let graphs = of_graphs(attribute.graphs, attribute.graphs@.len() as int);
        let one = maybe(attribute.tensor);
        let two = one + attribute.tensors@;
        let three = two + sparse;
        let four = three + several;
        let five = four + inner;
        lemma_collected_concat(style, start, one, attribute.tensors@);
        lemma_collected_concat(style, start, two, sparse);
        lemma_collected_concat(style, start, three, several);
        lemma_collected_concat(style, start, four, inner);
        lemma_collected_concat(style, start, five, graphs);
    }
    match collect_maybe(style, &attribute.tensor, locations) {
        Ok(()) => {},
        Err(error) => {
            return Err(error);
        },
    }
    match collect_list(style, &attribute.tensors, locations) {
        Ok(()) => {},
        Err(error) => {
            return Err(error);
        },
    }
    match &attribute.sparse_tensor {
        Some(tensor) => match collect_sparse(style, tensor, locations) {
            Ok(()) => {},
            Err(error) => {
                return Err(error);
            },
        },
        None => {},
    }
    match collect_sparse_list(style, &attribute.sparse_tensors, locations) {
        Ok(()) => {},
        Err(error) => {
            return Err(error);
        },
    }
    match &attribute.graph {
        Some(graph) => match collect_external_data_from_graph(style, graph, locations) {
            Ok(()) => {},
            Err(error) => {
                return Err(error);
            },
        },
        None => {},
    }
    collect_graphs(style, &attribute.graphs, locations)
}

fn collect_graphs(style: PathStyle, graphs: &Vec<Graph>, locations: &mut Vec<Vec<char>>) -> (result: Result<
    (),
    SidecarError,
>)
    ensures
        is_collected(
            style,
            old(locations)@,
            of_graphs(*graphs, graphs@.len() as int),
            final(locations)@,
            result,
        ),
    decreases *graphs, graphs@.len(),
{
    let ghost before = locations@;
    for index in 0..graphs.len()
        invariant
            before == old(locations)@,
            is_collected(style, before, of_graphs(*graphs, index as int), locations@, Ok(())),
    {
        let graph: &Graph = &graphs[index];
        proof {
            lemma_collected_concat(style, lists(before), of_graphs(*graphs, index as int), of_graph(*graph));
        }
        match collect_external_data_from_graph(style, graph, locations) {
            Ok(()) => {},
            Err(error) => {
                proof {
                    lemma_graphs_error(style, lists(before), *graphs, index + 1, graphs@.len() as int);
                }
                return Err(error);
            },
        }
    }
    Ok(())
}

/// The tensors of a graph, where there is one.
pub open spec fn of_maybe_graph(graph: Option<Graph>) -> Seq<TensorEntry> {
    match graph {
        Some(graph) => of_graph(graph),
        None => Seq::empty(),
    }
}

/// The tensors of the first `count` parts of the training information.
pub open spec fn of_training(training: Seq<TrainingEntry>, count: int) -> Seq<TensorEntry>
    decreases count,
{
    if count <= 0 {
        Seq::empty()
    } else {
        let entry = training[count - 1];
        of_training(training, count - 1) + of_maybe_graph(entry.initialization) + of_maybe_graph(
            entry.algorithm,
        )
    }
}

/// The tensors of the first `count` functions.
pub open spec fn of_functions(functions: Seq<FunctionEntry>, count: int) -> Seq<TensorEntry>
    decreases count,
{
    if count <= 0 {
        Seq::empty()
    } else {
        let entry = functions[count - 1];
        of_functions(functions, count - 1) + of_attributes(
            entry.attributes,
            entry.attributes@.len() as int,
        ) + of_nodes(entry.nodes, entry.nodes@.len() as int)
    }
}

/// All tensors of a model, in the order in which they are looked at.
pub open spec fn of_model(model: Model) -> Seq<TensorEntry> {
    of_maybe_graph(model.graph) + of_training(model.training@, model.training@.len() as int)
        + of_functions(model.functions@, model.functions@.len() as int)
}

fn collect_maybe_graph(style: PathStyle, graph: &Option<Graph>, locations: &mut Vec<Vec<char>>) -> (result: Result<
    (),
    SidecarError,
>)
    ensures
        is_collected(style, old(locations)@, of_maybe_graph(*graph), final(locations)@, result),
{
    match graph {
        Some(graph) => collect_external_data_from_graph(style, graph, locations),
        None => Ok(()),
    }
}

proof fn lemma_training_error(
    style: PathStyle,
    list: Seq<Seq<char>>,
    training: Seq<TrainingEntry>,
    count: int,
    total: int,
)
    requires
        0 <= count <= total <= training.len(),
        collected(style, list, of_training(training, count)) is Err,
    ensures
        collected(style, list, of_training(training, total)) == collected(
            style,
            list,
            of_training(training, count),
        ),
    decreases total,
{
    if count < total {
        lemma_training_error(style, list, training, count, total - 1);
        let entry = training[total - 1];
        let before = of_training(training, total - 1);
        lemma_collected_concat(style, list, before, of_maybe_graph(entry.initialization));
        lemma_collected_concat(
            style,
            list,
            before + of_maybe_graph(entry.initialization),
            of_maybe_graph(entry.algorithm),
        );
    }
}

fn collect_training(
    style: PathStyle,
    training: &Vec<TrainingEntry>,
    locations: &mut Vec<Vec<char>>,
) -> (result: Result<(), SidecarError>)
    ensures
        is_collected(
            style,
            old(locations)@,
            of_training(training@, training@.len() as int),
            final(locations)@,
            result,
        ),
{
    let ghost before = locations@;
    for index in 0..training.len()
        invariant
            before == old(locations)@,
            is_collected(style, before, of_training(training@, index as int), locations@, Ok(())),
    {
        let entry: &TrainingEntry = &training[index];
        proof {
            let start = lists(before);
            let head = of_training(training@, index as int);
            lemma_collected_concat(style, start, head, of_maybe_graph(entry.initialization));
            lemma_collected_concat(
                style,
                start,
                head + of_maybe_graph(entry.initialization),
                of_maybe_graph(entry.algorithm),
            );
            assert(of_training(training@, index + 1) == head + of_maybe_graph(entry.initialization)
                + of_maybe_graph(entry.algorithm));
        }
        match collect_maybe_graph(style, &entry.initialization, locations) {
            Ok(()) => {},
            Err(error) => {
                proof {
                    lemma_training_error(
                        style,
                        lists(before),
                        training@,
                        index + 1,
                        training@.len() as int,
                    );
                }
                return Err(error);
            },
        }
        match collect_maybe_graph(style, &entry.algorithm, locations) {
            Ok(()) => {},
            Err(error) => {
                proof {
                    lemma_training_error(
                        style,
                        lists(before),
                        training@,
                        index + 1,
                        training@.len() as int,
                    );
                }
                return Err(error);
            },
        }
    }
    Ok(())
}

proof fn lemma_functions_error(
    style: PathStyle,
    list: Seq<Seq<char>>,
    functions: Seq<FunctionEntry>,
    count: int,
    total: int,
)
    requires
        0 <= count <= total <= functions.len(),
        collected(style, list, of_functions(functions, count)) is Err,
    ensures
        collected(style, list, of_functions(functions, total)) == collected(
            style,
            list,
            of_functions(functions, count),
        ),
    decreases total,
{
    if count < total {
        lemma_functions_error(style, list, functions, count, total - 1);
        let entry = functions[total - 1];
        let before = of_functions(functions, total - 1);
        let attributes = of_attributes(entry.attributes, entry.attributes@.len() as int);
        lemma_collected_concat(style, list, before, attributes);
        lemma_collected_concat(
            style,
            list,
            before + attributes,
            of_nodes(entry.nodes, entry.nodes@.len() as int),
        );
    }
}

fn collect_functions(
    style: PathStyle,
    functions: &Vec<FunctionEntry>,
    locations: &mut Vec<Vec<char>>,
) -> (result: Result<(), SidecarError>)
    ensures
        is_collected(
            style,
            old(locations)@,
            of_functions(functions@, functions@.len() as int),
            final(locations)@,
            result,
        ),
{
    let ghost before = locations@;
    for index in 0..functions.len()
        invariant
            before == old(locations)@,
            is_collected(style, before, of_functions(functions@, index as int), locations@, Ok(())),
    {
        let entry: &FunctionEntry = &functions[index];
        proof {
            let start = lists(before);
            let head = of_functions(functions@, index as int);
            let attributes = of_attributes(entry.attributes, entry.attributes@.len() as int);
            let nodes = of_nodes(entry.nodes, entry.nodes@.len() as int);
            lemma_collected_concat(style, start, head, attributes);
            lemma_collected_concat(style, start, head + attributes, nodes);
            assert(of_functions(functions@, index + 1) == head + attributes + nodes);
        }
        match collect_attributes(style, &entry.attributes, locations) {
            Ok(()) => {},
            Err(error) => {
                proof {
                    lemma_functions_error(
                        style,
                        lists(before),
                        functions@,
                        index + 1,
                        functions@.len() as int,
                    );
                }
                return Err(error);
            },
        }
        match collect_nodes(style, &entry.nodes, locations) {
            Ok(()) => {},
            Err(error) => {
                proof {
                    lemma_functions_error(
                        style,
                        lists(before),
                        functions@,
                        index + 1,
                        functions@.len() as int,
                    );
                }
                return Err(error);
            },
        }
    }
    Ok(())
}

/// The paths of all outside data of a model, in order, each once.
pub fn external_tensor_data_locations(model: &Model, style: PathStyle) -> (result: Result<
    Vec<String>,
    SidecarError,
>)
    ensures
        match result {
            Ok(paths) => collected(style, Seq::empty(), of_model(*model)) == Ok::<
                Seq<Seq<char>>,
                SidecarError,
            >(texts(paths@)),
            Err(error) => collected(style, Seq::empty(), of_model(*model)) == Err::<
                Seq<Seq<char>>,
                SidecarError,
            >(error),
        },
{
    let mut locations: Vec<Vec<char>> = Vec::new();
    proof {
        assert(lists(locations@) =~= Seq::<Seq<char>>::empty());
        let start = Seq::<Seq<char>>::empty();
        let graph = of_maybe_graph(model.graph);
        let training = of_training(model.training@, model.training@.len() as int);
        let functions = of_functions(model.functions@, model.functions@.len() as int);
        lemma_collected_concat(style, start, graph, training);
        lemma_collected_concat(style, start, graph + training, functions);
    }
    match collect_maybe_graph(style, &model.graph, &mut locations) {
        Ok(()) => {},
        Err(error) => {
            return Err(error);
        },
    }
    match collect_training(style, &model.training, &mut locations) {
        Ok(()) => {},
        Err(error) => {
            return Err(error);
        },
    }
    match collect_functions(style, &model.functions, &mut locations) {
        Ok(()) => {},
        Err(error) => {
            return Err(error);
        },
    }
    let mut paths: Vec<String> = Vec::new();
    let ghost wanted = lists(locations@);
    assert(wanted.take(0) =~= texts(paths@));
    for index in 0..locations.len()
        invariant
            wanted == lists(locations@),
            texts(paths@) == wanted.take(index as int),
    {
        let path: String = string_of(locations[index].as_slice());
        let ghost before = texts(paths@);
        paths.push(path);
        assert(texts(paths@) =~= before.push(path@));
        assert(texts(paths@) =~= wanted.take(index + 1));
    }
    assert(wanted.take(wanted.len() as int) =~= wanted);
    Ok(paths)
}

} // verus!
