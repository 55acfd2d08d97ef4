//! What the command-line tools decide: their flags, and what they tell of a model.
use vstd::prelude::*;
use crate::staticize::{argument_texts, digits_value};
use crate::text::{chars_of, same_text, string_of};

verus! {

/// Whether one text comes before another, character by character.
pub open spec fn text_before(first: Seq<char>, second: Seq<char>) -> bool
    decreases first.len(),
{
    if second.len() == 0 {
        false
    } else if first.len() == 0 {
        true
    } else if first[0] != second[0] {
        first[0] < second[0]
    } else {
        text_before(first.skip(1), second.skip(1))
    }
}

/// The list with one more of a name, in the order of names.
pub open spec fn counted(list: Seq<(Seq<char>, int)>, name: Seq<char>) -> Seq<(Seq<char>, int)>
    decreases list.len(),
{
    if list.len() == 0 {
        seq![(name, 1)]
    } else if name == list[0].0 {
        seq![(name, list[0].1 + 1)] + list.skip(1)
    } else if text_before(name, list[0].0) {
        seq![(name, 1)] + list
    } else {
        seq![list[0]] + counted(list.skip(1), name)
    }
}

/// The name of an operation; one that is missing has a name too.
pub open spec fn operation_name(name: Option<Seq<char>>) -> Seq<char> {
    match name {
        Some(text) => text,
        None => "<missing>"@,
    }
}

/// How often each name occurs among the first `count`.
pub open spec fn tally(names: Seq<Option<Seq<char>>>, count: int) -> Seq<(Seq<char>, int)>
    decreases count,
{
    if count <= 0 {
        Seq::empty()
    } else {
        counted(tally(names, count - 1), operation_name(names[count - 1]))
    }
}

/// How often a name occurs among the first `count`.
pub open spec fn occurrences(
    names: Seq<Option<Seq<char>>>,
    name: Seq<char>,
    count: int,
) -> int
    decreases count,
{
    if count <= 0 {
        0
    } else {
        occurrences(names, name, count - 1) + if operation_name(names[count - 1]) == name {
            1int
        } else {
            0int
        }
    }
}

/// How often a list says that a name occurs.
pub open spec fn listed_count(list: Seq<(Seq<char>, int)>, name: Seq<char>) -> int
    decreases list.len(),
{
    if list.len() == 0 {
        0
    } else if list[0].0 == name {
        list[0].1 + listed_count(list.skip(1), name)
    } else {
        listed_count(list.skip(1), name)
    }
}

proof fn lemma_counted(list: Seq<(Seq<char>, int)>, name: Seq<char>, other: Seq<char>)
    ensures
        listed_count(counted(list, name), other) == listed_count(list, other) + if name == other {
            1int
        } else {
            0int
        },
    decreases list.len(),
{
    let after = counted(list, name);
    if list.len() == 0 {
        assert(after.skip(1) =~= list);
    } else if name == list[0].0 {
        assert(after.skip(1) =~= list.skip(1));
    } else if text_before(name, list[0].0) {
        assert(after.skip(1) =~= list);
    } else {
        lemma_counted(list.skip(1), name, other);
        assert(after.skip(1) =~= counted(list.skip(1), name));
    }
}

/// The list tells of every name how often it occurs.
pub proof fn lemma_tally(names: Seq<Option<Seq<char>>>, count: int, name: Seq<char>)
    requires
        0 <= count <= names.len(),
    ensures
        listed_count(tally(names, count), name) == occurrences(names, name, count),
    decreases count,
{
    if count > 0 {
        lemma_tally(names, count - 1, name);
        lemma_counted(tally(names, count - 1), operation_name(names[count - 1]), name);
    }
}

/// The names of a list with their counts.
pub open spec fn count_views(list: Seq<(Vec<char>, usize)>) -> Seq<(Seq<char>, int)> {
    list.map_values(|pair: (Vec<char>, usize)| (pair.0@, pair.1 as int))
}

/// The names of a list with their counts.
pub open spec fn count_texts(list: Seq<(String, usize)>) -> Seq<(Seq<char>, int)> {
    list.map_values(|pair: (String, usize)| (pair.0@, pair.1 as int))
}

fn is_before(first: &Vec<char>, second: &Vec<char>) -> (result: bool)
    ensures
        result == text_before(first@, second@),
{
    let mut index: usize = 0;
    assert(first@.skip(0) =~= first@);
    assert(second@.skip(0) =~= second@);
    loop
        invariant
            index <= first@.len(),
            index <= second@.len(),
            text_before(first@.skip(index as int), second@.skip(index as int)) == text_before(
                first@,
                second@,
            ),
        decreases first@.len() - index,
    {
        if index >= second.len() {
            return false;
        }
        if index >= first.len() {
            return true;
        }
        assert(first@.skip(index as int)[0] == first@[index as int]);
        assert(second@.skip(index as int)[0] == second@[index as int]);
        if first[index] != second[index] {
            return first[index] < second[index];
        }
        assert(first@.skip(index as int).skip(1) =~= first@.skip(index + 1));
        assert(second@.skip(index as int).skip(1) =~= second@.skip(index + 1));
        index = index + 1;
    }
}

fn count_name(list: &mut Vec<(Vec<char>, usize)>, name: Vec<char>, limit: usize)
    requires
        limit > 0,
        forall|i: int| 0 <= i < old(list)@.len() ==> (#[trigger] old(list)@[i]).1 < limit,
    ensures
        count_views(final(list)@) == counted(count_views(old(list)@), name@),
        forall|i: int| 0 <= i < final(list)@.len() ==> (#[trigger] final(list)@[i]).1 <= limit,
{
    let ghost all = count_views(list@);
    let ghost before = list@;
    let mut index: usize = 0;
    proof {
        assert(all.skip(0) =~= all);
        assert(all.take(0) + counted(all, name@) =~= counted(all, name@));
    }
    while index < list.len()
        invariant
            limit > 0,
            list@ == before,
            before == old(list)@,
            all == count_views(before),
            index <= list@.len(),
            forall|i: int| 0 <= i < before.len() ==> (#[trigger] before[i]).1 < limit,
            all.take(index as int) + counted(all.skip(index as int), name@) == counted(all, name@),
        decreases list@.len() - index,
    {
        let ghost rest = all.skip(index as int);
        assert(rest[0] == (list@[index as int].0@, list@[index as int].1 as int));
        if same_text(name.as_slice(), list[index].0.as_slice()) {
            let count: usize = list[index].1;
            let ghost wanted = all.take(index as int) + (seq![(name@, count + 1)] + rest.skip(1));
            list.set(index, (name, count + 1));
            assert(count_views(list@) =~= wanted);
            return;
        }
        if is_before(&name, &list[index].0) {
            let ghost wanted = all.take(index as int) + (seq![(name@, 1int)] + rest);
            list.insert(index, (name, 1));
            assert(count_views(list@) =~= wanted);
            return;
        }
        proof {
            assert(rest.skip(1) =~= all.skip(index + 1));
            assert(all.take(index as int) + (seq![rest[0]] + counted(all.skip(index + 1), name@))
                =~= all.take(index + 1) + counted(all.skip(index + 1), name@));
        }
        index = index + 1;
    }
    proof {
        assert(all.skip(index as int) =~= Seq::<(Seq<char>, int)>::empty());
        assert(all.take(index as int) =~= all);
    }
    list.push((name, 1));
    assert(count_views(list@) =~= all + seq![(name@, 1int)]);
}

/// How often each kind of operation occurs in a model, in the order of names.
pub fn count_operations(names: &[Option<String>]) -> (result: Vec<(String, usize)>)
    ensures
        count_texts(result@) == tally(argument_texts(names@), names@.len() as int),
{
    let ghost all = argument_texts(names@);
    let mut list: Vec<(Vec<char>, usize)> = Vec::new();
    assert(count_views(list@) =~= Seq::<(Seq<char>, int)>::empty());
    for index in 0..names.len()
        invariant
            all == argument_texts(names@),
            count_views(list@) == tally(all, index as int),
            forall|i: int| 0 <= i < list@.len() ==> (#[trigger] list@[i]).1 <= index,
    {
        assert(all[index as int] == match names@[index as int] {
            Some(text) => Some(text@),
            None => None,
        });
        let name: Vec<char> = match &names[index] {
            Some(text) => chars_of(text.as_str()),
            None => chars_of("<missing>"),
        };
        count_name(&mut list, name, index + 1);
    }
    let mut result: Vec<(String, usize)> = Vec::new();
    let ghost wanted = count_views(list@);
    assert(count_texts(result@) =~= wanted.take(0));
    for index in 0..list.len()
        invariant
            wanted == count_views(list@),
            count_texts(result@) == wanted.take(index as int),
    {
        let name: String = string_of(list[index].0.as_slice());
        let ghost before = count_texts(result@);
        result.push((name, list[index].1));
        assert(count_texts(result@) =~= before.push(wanted[index as int]));
        assert(count_texts(result@) =~= wanted.take(index + 1));
    }
    assert(wanted.take(wanted.len() as int) =~= wanted);
    result
}

/// The place of the last of the first `count` entries that has a name.
pub open spec fn last_named(
    names: Seq<Option<Seq<char>>>,
    wanted: Seq<char>,
    count: int,
) -> Option<int>
    decreases count,
{
    if count <= 0 {
        None
    } else if names[count - 1] == Some(wanted) {
        Some(count - 1)
    } else {
        last_named(names, wanted, count - 1)
    }
}

/// The place of the last entry that has a name.
pub fn find_named(names: &[Option<String>], wanted: &str) -> (result: Option<usize>)
    ensures
        match result {
            Some(place) => last_named(argument_texts(names@), wanted@, names@.len() as int) == Some(
                place as int,
            ),
            None => last_named(argument_texts(names@), wanted@, names@.len() as int) is None,
        },
{
    let ghost all = argument_texts(names@);
    let text: Vec<char> = chars_of(wanted);
    let mut place: usize = names.len();
    while place > 0
        invariant
            all == argument_texts(names@),
            text@ == wanted@,
            place <= names@.len(),
            last_named(all, wanted@, names@.len() as int) == last_named(all, wanted@, place as int),
        decreases place,
    {
        place = place - 1;
        assert(all[place as int] == match names@[place as int] {
            Some(text) => Some(text@),
            None => None,
        });
        if let Some(name) = &names[place] {
            if same_text(chars_of(name.as_str()).as_slice(), text.as_slice()) {
                return Some(place);
            }
        }
    }
    None
}

/// What is told of a node of a model.
pub struct NodeInfo {
    pub operation: Option<String>,
    /// The names of what the node receives.
    pub inputs: Vec<String>,
}

/// The name of the operation of a node.
pub open spec fn node_operation(node: NodeInfo) -> Option<Seq<char>> {
    match node.operation {
        Some(name) => Some(name@),
        None => None,
    }
}

/// Whether a node is a convolution, or the transpose of one.
pub open spec fn convolves(node: NodeInfo) -> bool {
    node_operation(node) == Some("Conv"@) || node_operation(node) == Some("ConvTranspose"@)
}

/// The place of the weights of a node, its second input, among named tensors.
pub open spec fn weight_place(node: NodeInfo, names: Seq<Option<Seq<char>>>) -> Option<int> {
    if node.inputs@.len() < 2 {
        None
    } else {
        last_named(names, node.inputs@[1]@, names.len() as int)
    }
}

/// The convolutions among the first `count` nodes, each with the place of its weights.
pub open spec fn convolutions(
    nodes: Seq<NodeInfo>,
    names: Seq<Option<Seq<char>>>,
    count: int,
) -> Seq<(int, Option<int>)>
    decreases count,
{
    if count <= 0 {
        Seq::empty()
    } else {
        let before = convolutions(nodes, names, count - 1);
        if convolves(nodes[count - 1]) {
            before.push((count - 1, weight_place(nodes[count - 1], names)))
        } else {
            before
        }
    }
}

/// A place that may be missing.
pub open spec fn place_view(place: Option<usize>) -> Option<int> {
    match place {
        Some(place) => Some(place as int),
        None => None,
    }
}

/// Convolutions with the places of their weights.
pub open spec fn place_views(list: Seq<(usize, Option<usize>)>) -> Seq<(int, Option<int>)> {
    list.map_values(|pair: (usize, Option<usize>)| (pair.0 as int, place_view(pair.1)))
}

/// The convolutions of a model, each with the place of its weights among the
/// named tensors.
pub fn find_convolutions(nodes: &[NodeInfo], names: &[Option<String>]) -> (result: Vec<
    (usize, Option<usize>),
>)
    ensures
        place_views(result@) == convolutions(
            nodes@,
            argument_texts(names@),
            nodes@.len() as int,
        ),
{
    let ghost all = argument_texts(names@);
    let mut found: Vec<(usize, Option<usize>)> = Vec::new();
    assert(place_views(found@) =~= Seq::<(int, Option<int>)>::empty());
    for index in 0..nodes.len()
        invariant
            all == argument_texts(names@),
            place_views(found@) == convolutions(nodes@, all, index as int),
    {
        let node: &NodeInfo = &nodes[index];
        let wanted: bool = match &node.operation {
            None => false,
            Some(name) => {
                let text: Vec<char> = chars_of(name.as_str());
                matches_text(&text, "Conv") || matches_text(&text, "ConvTranspose")
            },
        };
        assert(wanted == convolves(nodes@[index as int]));
        if wanted {
            let place: Option<usize> = if node.inputs.len() < 2 {
                None
            } else {
                find_named(names, node.inputs[1].as_str())
            };
            let ghost before = place_views(found@);
            found.push((index, place));
            assert(place_views(found@) =~= before.push((index as int, place_view(place))));
        }
    }
    found
}

/// What is told of a model: how often each kind of operation occurs, and its
/// convolutions.
pub struct Inspection {
    pub operations: Vec<(String, usize)>,
    pub convolutions: Vec<(usize, Option<usize>)>,
}

/// The operations of nodes.
pub open spec fn node_operations(nodes: Seq<NodeInfo>) -> Seq<Option<Seq<char>>> {
    nodes.map_values(|node: NodeInfo| node_operation(node))
}

/// What is told of a model with one input and one output; of another, nothing.
pub fn inspect(
    inputs: usize,
    outputs: usize,
    nodes: &[NodeInfo],
    names: &[Option<String>],
) -> (result: Option<Inspection>)
    ensures
        match result {
            None => inputs != 1 || outputs != 1,
            Some(told) => {
                &&& inputs == 1 && outputs == 1
                &&& count_texts(told.operations@) == tally(
                    node_operations(nodes@),
                    nodes@.len() as int,
                )
                &&& place_views(told.convolutions@) == convolutions(
                    nodes@,
                    argument_texts(names@),
                    nodes@.len() as int,
                )
            },
        },
{
    if inputs != 1 || outputs != 1 {
        return None;
    }
    let ghost all = node_operations(nodes@);
    let mut operations: Vec<Option<String>> = Vec::new();
    assert(argument_texts(operations@) =~= all.take(0));
    for index in 0..nodes.len()
        invariant
            all == node_operations(nodes@),
            argument_texts(operations@) == all.take(index as int),
    {
        let name: Option<String> = match &nodes[index].operation {
            Some(name) => Some(string_of(chars_of(name.as_str()).as_slice())),
            None => None,
        };
        let ghost before = argument_texts(operations@);
        operations.push(name);
        assert(argument_texts(operations@) =~= before.push(all[index as int]));
        assert(argument_texts(operations@) =~= all.take(index + 1));
    }
    assert(all.take(nodes@.len() as int) =~= all);
    assert(operations@.len() == argument_texts(operations@).len());
    Some(
        Inspection {
            operations: count_operations(operations.as_slice()),
            convolutions: find_convolutions(nodes, names),
        },
    )
}

/// Why the arguments of the converter were refused.
#[derive(Clone, Copy, Debug, PartialEq, Eq, Structural)]
pub enum ConvertError {
    /// There are no two paths.
    Paths,
    /// The third argument is not the shape's flag.
    Flag,
    /// A dimension is missing.
    Missing,
    /// A dimension is not text.
    NotText,
    /// A dimension is not a number that can be counted.
    NotNumber,
    /// A dimension is zero.
    NotPositive,
    /// Something follows the shape.
    Unexpected,
}

/// The number that a text stands for: digits behind an optional plus.
pub open spec fn size_text(text: Seq<char>) -> Option<int> {
    let digits = if text.len() > 0 && text[0] == '+' {
        text.skip(1)
    } else {
        text
    };
    if digits.len() == 0 {
        None
    } else {
        match digits_value(digits) {
            Some(value) => if value <= usize::MAX {
                Some(value)
            } else {
                None
            },
            None => None,
        }
    }
}

/// Reads a number that can be counted.
pub fn parse_size(text: &str) -> (result: Option<usize>)
    ensures
        match result {
            Some(value) => size_text(text@) == Some(value as int),
            None => size_text(text@) is None,
        },
{
    let characters: Vec<char> = chars_of(text);
    let len: usize = characters.len();
    let start: usize = if len > 0 && characters[0] == '+' {
        1
    } else {
        0
    };
    if start == len {
        return None;
    }
    let ghost digits = text@.skip(start as int);
    assert(text@.skip(0) =~= text@);
    let mut value: u128 = 0;
    assert(digits.take(0) =~= Seq::<char>::empty());
    for index in start..len
        invariant
            characters@ == text@,
            len == text@.len(),
            start < len,
            start == if text@[0] == '+' {
                1int
            } else {
                0int
            },
            digits == text@.skip(start as int),
            value <= usize::MAX,
            digits_value(digits.take(index - start)) == Some(value as int),
    {
        let character: char = characters[index];
        let ghost longer = digits.take(index - start + 1);
        proof {
            assert(text@.skip(0) =~= text@);
            assert(longer.drop_last() =~= digits.take(index - start));
            assert(longer.last() == character);
            if digits_value(digits) is Some {
                crate::staticize::lemma_digits_prefix(digits, index - start + 1);
            }
        }
        if character < '0' || character > '9' {
            return None;
        }
        value = value * 10 + (character as u32 as u128 - '0' as u32 as u128);
        if value > usize::MAX as u128 {
            return None;
        }
    }
    assert(digits.take(len - start) =~= digits);
    assert(text@.skip(0) =~= text@);
    Some(value as usize)
}

/// One dimension of the shape.
pub open spec fn converted_dimension(arguments: Seq<Option<Seq<char>>>, index: int) -> Result<
    usize,
    ConvertError,
> {
    if index >= arguments.len() {
        Err(ConvertError::Missing)
    } else {
        match arguments[index] {
            None => Err(ConvertError::NotText),
            Some(text) => match size_text(text) {
                None => Err(ConvertError::NotNumber),
                Some(value) => if value == 0 {
                    Err(ConvertError::NotPositive)
                } else {
                    Ok(value as usize)
                },
            },
        }
    }
}

/// The shape that the converter's arguments ask for: two paths, the flag of the
/// shape, and its four dimensions.
pub open spec fn converted_shape(arguments: Seq<Option<Seq<char>>>) -> Result<
    Seq<usize>,
    ConvertError,
> {
    if arguments.len() < 2 {
        Err(ConvertError::Paths)
    } else if arguments.len() < 3 || arguments[2] != Some("--shape"@) {
        Err(ConvertError::Flag)
    } else {
        match (
            converted_dimension(arguments, 3),
            converted_dimension(arguments, 4),
            converted_dimension(arguments, 5),
            converted_dimension(arguments, 6),
        ) {
            (Err(error), _, _, _) => Err(error),
            (_, Err(error), _, _) => Err(error),
            (_, _, Err(error), _) => Err(error),
            (_, _, _, Err(error)) => Err(error),
            (Ok(first), Ok(second), Ok(third), Ok(fourth)) => if arguments.len() > 7 {
                Err(ConvertError::Unexpected)
            } else {
                Ok(seq![first, second, third, fourth])
            },
        }
    }
}

fn dimension(arguments: &[Option<String>], index: usize) -> (result: Result<usize, ConvertError>)
    ensures
        result == converted_dimension(argument_texts(arguments@), index as int),
{
    if index >= arguments.len() {
        return Err(ConvertError::Missing);
    }
    assert(argument_texts(arguments@)[index as int] == match arguments@[index as int] {
        Some(text) => Some(text@),
        None => None,
    });
    match &arguments[index] {
        None => Err(ConvertError::NotText),
        Some(text) => match parse_size(text.as_str()) {
            None => Err(ConvertError::NotNumber),
            Some(value) => {
                if value == 0 {
                    return Err(ConvertError::NotPositive);
                }
                Ok(value)
            },
        },
    }
}

/// Reads the arguments of the converter. The two paths come first.
pub fn parse_convert_arguments(arguments: &[Option<String>]) -> (result: Result<
    [usize; 4],
    ConvertError,
>)
    ensures
        match result {
            Ok(shape) => converted_shape(argument_texts(arguments@)) == Ok::<
                Seq<usize>,
                ConvertError,
            >(shape@),
            Err(error) => converted_shape(argument_texts(arguments@)) == Err::<
                Seq<usize>,
                ConvertError,
            >(error),
        },
{
    let len: usize = arguments.len();
    if len < 2 {
        return Err(ConvertError::Paths);
    }
    if len < 3 {
        return Err(ConvertError::Flag);
    }
    assert(argument_texts(arguments@)[2] == match arguments@[2] {
        Some(text) => Some(text@),
        None => None,
    });
    match &arguments[2] {
        None => {
            return Err(ConvertError::Flag);
        },
        Some(text) => {
            if !same_text(chars_of(text.as_str()).as_slice(), chars_of("--shape").as_slice()) {
                return Err(ConvertError::Flag);
            }
        },
    }
    let first: usize = match dimension(arguments, 3) {
        Err(error) => {
            return Err(error);
        },
        Ok(value) => value,
    };
    let second: usize = match dimension(arguments, 4) {
        Err(error) => {
            return Err(error);
        },
        Ok(value) => value,
    };
    let third: usize = match dimension(arguments, 5) {
        Err(error) => {
            return Err(error);
        },
        Ok(value) => value,
    };
    let fourth: usize = match dimension(arguments, 6) {
        Err(error) => {
            return Err(error);
        },
        Ok(value) => value,
    };
    if len > 7 {
        return Err(ConvertError::Unexpected);
    }
    let shape: [usize; 4] = [first, second, third, fourth];
    assert(shape@ =~= seq![first, second, third, fourth]);
    Ok(shape)
}

/// A flag of the inference tool that takes a value.
#[derive(Clone, Copy, Debug, PartialEq, Eq, Structural)]
pub enum InferenceFlag {
    Image,
    Dictionary,
    Output,
    RecognizerWidth,
    BinaryThreshold,
    BoxThreshold,
    UnclipRatio,
    MinimumArea,
    MaximumBoxes,
}

/// The flag that a text names.
pub open spec fn flag_of(text: Seq<char>) -> Option<InferenceFlag> {
    if text == "--image"@ {
        Some(InferenceFlag::Image)
    } else if text == "--dict"@ {
        Some(InferenceFlag::Dictionary)
    } else if text == "--output"@ {
        Some(InferenceFlag::Output)
    } else if text == "--rec-width"@ {
        Some(InferenceFlag::RecognizerWidth)
    } else if text == "--det-threshold"@ {
        Some(InferenceFlag::BinaryThreshold)
    } else if text == "--box-threshold"@ {
        Some(InferenceFlag::BoxThreshold)
    } else if text == "--unclip-ratio"@ {
        Some(InferenceFlag::UnclipRatio)
    } else if text == "--min-area"@ {
        Some(InferenceFlag::MinimumArea)
    } else if text == "--max-boxes"@ {
        Some(InferenceFlag::MaximumBoxes)
    } else {
        None
    }
}

/// What the next argument of the inference tool asks for.
#[derive(Clone, Copy, Debug, PartialEq, Eq, Structural)]
pub enum FlagStep {
    /// There are no more arguments.
    Done,
    /// Help is asked for.
    Help,
    /// A flag, whose value is at this place; the next argument follows it.
    Value(InferenceFlag, usize),
    /// A flag without its value.
    MissingValue(InferenceFlag),
    /// An argument that is no flag.
    Unknown,
}

/// What the argument at `index` asks for. `None` is one that is not text.
pub open spec fn step_of(arguments: Seq<Option<Seq<char>>>, index: int) -> FlagStep {
    if index >= arguments.len() {
        FlagStep::Done
    } else {
        match arguments[index] {
            None => FlagStep::Unknown,
            Some(text) => match flag_of(text) {
                Some(flag) => if index + 1 < arguments.len() {
                    FlagStep::Value(flag, (index + 1) as usize)
                } else {
                    FlagStep::MissingValue(flag)
                },
                None => if text == "--help"@ || text == "-h"@ {
                    FlagStep::Help
                } else {
                    FlagStep::Unknown
                },
            },
        }
    }
}

fn matches_text(text: &Vec<char>, name: &str) -> (result: bool)
    ensures
        result == (text@ == name@),
{
    same_text(text.as_slice(), chars_of(name).as_slice())
}

fn find_flag(text: &Vec<char>) -> (result: Option<InferenceFlag>)
    ensures
        result == flag_of(text@),
{
    if matches_text(text, "--image") {
        Some(InferenceFlag::Image)
    } else if matches_text(text, "--dict") {
        Some(InferenceFlag::Dictionary)
    } else if matches_text(text, "--output") {
        Some(InferenceFlag::Output)
    } else if matches_text(text, "--rec-width") {
        Some(InferenceFlag::RecognizerWidth)
    } else if matches_text(text, "--det-threshold") {
        Some(InferenceFlag::BinaryThreshold)
    } else if matches_text(text, "--box-threshold") {
        Some(InferenceFlag::BoxThreshold)
    } else if matches_text(text, "--unclip-ratio") {
        Some(InferenceFlag::UnclipRatio)
    } else if matches_text(text, "--min-area") {
        Some(InferenceFlag::MinimumArea)
    } else if matches_text(text, "--max-boxes") {
        Some(InferenceFlag::MaximumBoxes)
    } else {
        None
    }
}

/// What the argument at `index` asks for.
pub fn next_flag(arguments: &[Option<String>], index: usize) -> (result: FlagStep)
    ensures
        result == step_of(argument_texts(arguments@), index as int),
{
    let len: usize = arguments.len();
    if index >= len {
        return FlagStep::Done;
    }
    assert(argument_texts(arguments@)[index as int] == match arguments@[index as int] {
        Some(text) => Some(text@),
        None => None,
    });
    match &arguments[index] {
        None => FlagStep::Unknown,
        Some(argument) => {
            let text: Vec<char> = chars_of(argument.as_str());
            match find_flag(&text) {
                Some(flag) => if index < len - 1 {
                    FlagStep::Value(flag, index + 1)
                } else {
                    FlagStep::MissingValue(flag)
                },
                None => if matches_text(&text, "--help") || matches_text(&text, "-h") {
                    FlagStep::Help
                } else {
                    FlagStep::Unknown
                },
            }
        },
    }
}

} // verus!
