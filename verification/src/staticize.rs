//! A fixed input shape for a model: the arguments that ask for it, and the
//! input that receives it.
use vstd::prelude::*;
use crate::text::{chars_of, same_text};

verus! {

/// The value of a digit.
pub open spec fn digit(character: char) -> Option<int> {
    if '0' <= character <= '9' {
        Some(character as int - '0' as int)
    } else {
        None
    }
}

/// The number that digits stand for; `None` where one is not a digit.
pub open spec fn digits_value(text: Seq<char>) -> Option<int>
    decreases text.len(),
{
    if text.len() == 0 {
        Some(0)
    } else {
        match (digits_value(text.drop_last()), digit(text.last())) {
            (Some(before), Some(last)) => Some(before * 10 + last),
            _ => None,
        }
    }
}

/// The number that a text stands for: digits behind an optional sign.
pub open spec fn number_of(text: Seq<char>) -> Option<int> {
    if text.len() == 0 {
        None
    } else if text[0] == '-' || text[0] == '+' {
        if text.len() == 1 {
            None
        } else {
            match digits_value(text.skip(1)) {
                Some(value) => Some(
                    if text[0] == '-' {
                        -value
                    } else {
                        value
                    },
                ),
                None => None,
            }
        }
    } else {
        digits_value(text)
    }
}

/// The number that a text stands for, where it fits in 64 bits.
pub open spec fn integer_of(text: Seq<char>) -> Option<int> {
    match number_of(text) {
        Some(value) => if i64::MIN <= value <= i64::MAX {
            Some(value)
        } else {
            None
        },
        None => None,
    }
}

pub proof fn lemma_digits_prefix(text: Seq<char>, count: int)
    requires
        0 <= count <= text.len(),
        digits_value(text) is Some,
    ensures
        digits_value(text.take(count)) is Some,
        0 <= digits_value(text.take(count))->Some_0 <= digits_value(text)->Some_0,
    decreases text.len() - count,
{
    if count == text.len() {
        assert(text.take(count) =~= text);
        lemma_digits_positive(text);
    } else {
        lemma_digits_prefix(text, count + 1);
        let longer = text.take(count + 1);
        assert(longer.drop_last() =~= text.take(count));
        lemma_digits_positive(text.take(count));
    }
}

proof fn lemma_digits_positive(text: Seq<char>)
    ensures
        digits_value(text) is Some ==> digits_value(text)->Some_0 >= 0,
    decreases text.len(),
{
    if text.len() > 0 {
        lemma_digits_positive(text.drop_last());
    }
}

/// Reads a whole number of 64 bits.
pub fn parse_integer(text: &str) -> (result: Option<i64>)
    ensures
        match result {
            Some(value) => integer_of(text@) == Some(value as int),
            None => integer_of(text@) is None,
        },
{
    let characters: Vec<char> = chars_of(text);
    let len: usize = characters.len();
    if len == 0 {
        return None;
    }
    let signed: bool = characters[0] == '-' || characters[0] == '+';
    let start: usize = if signed {
        1
    } else {
        0
    };
    if start == len {
        return None;
    }
    let ghost digits = text@.skip(start as int);
    assert(text@.skip(0) =~= text@);
    let mut value: i128 = 0;
    assert(digits.take(0) =~= Seq::<char>::empty());
    for index in start..len
        invariant
            characters@ == text@,
            len == text@.len(),
            start <= len,
            digits == text@.skip(start as int),
            0 <= value <= 0x8000_0000_0000_0000,
            digits_value(digits.take(index - start)) == Some(value as int),
            len > 0,
            signed == (text@[0] == '-' || text@[0] == '+'),
            start == if signed {
                1int
            } else {
                0int
            },
            start < len,
    {
        let character: char = characters[index];
        let ghost longer = digits.take(index - start + 1);
        proof {
            assert(longer.drop_last() =~= digits.take(index - start));
            assert(longer.last() == character);
            assert(text@.skip(0) =~= text@);
            if digits_value(digits) is Some {
                lemma_digits_prefix(digits, index - start + 1);
            }
        }
        if character < '0' || character > '9' {
            return None;
        }
        value = value * 10 + (character as u32 as i128 - '0' as u32 as i128);
        if value > 0x8000_0000_0000_0000 {
            return None;
        }
    }
    assert(digits.take(len - start) =~= digits);
    assert(text@.skip(0) =~= text@);
    if characters[0] == '-' {
        Some((-value) as i64)
    } else if value > 0x7fff_ffff_ffff_ffff {
        None
    } else {
        Some(value as i64)
    }
}

/// Why arguments were refused.
#[derive(Clone, Copy, Debug, PartialEq, Eq, Structural)]
pub enum ArgumentError {
    /// The shape is given twice.
    RepeatedShape,
    /// The option at this place is not known.
    UnknownOption(usize),
    /// The shape lacks this value, counted from one.
    MissingValue(usize),
    /// This value of the shape is not text.
    NotText(usize),
    /// This value of the shape is not a whole number.
    NotInteger(usize),
    /// This value of the shape is zero or below.
    NotPositive(usize),
    /// There are not two paths.
    Paths,
    /// The shape is not given.
    NoShape,
}

/// What the arguments ask for; the paths are given by their places.
#[derive(Clone, Copy, Debug, PartialEq, Eq)]
pub struct Arguments {
    pub input: usize,
    pub output: usize,
    pub shape: [i64; 4],
}

/// What arguments hold; `None` is one that is not text.
pub open spec fn argument_texts(arguments: Seq<Option<String>>) -> Seq<Option<Seq<char>>> {
    arguments.map_values(
        |argument: Option<String>|
            match argument {
                Some(text) => Some(text@),
                None => None,
            },
    )
}

/// One value of the shape.
pub open spec fn dimension_of(arguments: Seq<Option<Seq<char>>>, start: int, index: int) -> Result<
    i64,
    ArgumentError,
> {
    let number = (index + 1) as usize;
    if start + index >= arguments.len() {
        Err(ArgumentError::MissingValue(number))
    } else {
        match arguments[start + index] {
            None => Err(ArgumentError::NotText(number)),
            Some(text) => match integer_of(text) {
                None => Err(ArgumentError::NotInteger(number)),
                Some(value) => if value <= 0 {
                    Err(ArgumentError::NotPositive(number))
                } else {
                    Ok(value as i64)
                },
            },
        }
    }
}

/// The four values that begin at `start`; the first that is refused gives the error.
pub open spec fn shape_of(arguments: Seq<Option<Seq<char>>>, start: int) -> Result<
    Seq<i64>,
    ArgumentError,
> {
    match (
        dimension_of(arguments, start, 0),
        dimension_of(arguments, start, 1),
        dimension_of(arguments, start, 2),
        dimension_of(arguments, start, 3),
    ) {
        (Err(error), _, _, _) => Err(error),
        (_, Err(error), _, _) => Err(error),
        (_, _, Err(error), _) => Err(error),
        (_, _, _, Err(error)) => Err(error),
        (Ok(first), Ok(second), Ok(third), Ok(fourth)) => Ok(seq![first, second, third, fourth]),
    }
}

fn dimension(arguments: &[Option<String>], start: usize, index: usize) -> (result: Result<
    i64,
    ArgumentError,
>)
    requires
        start <= arguments@.len(),
        index < 4,
    ensures
        result == dimension_of(argument_texts(arguments@), start as int, index as int),
{
    let len: usize = arguments.len();
    if index >= len - start {
        return Err(ArgumentError::MissingValue(index + 1));
    }
    assert(argument_texts(arguments@)[start + index] == match arguments@[start + index] {
        Some(text) => Some(text@),
        None => None,
    });
    match &arguments[start + index] {
        None => Err(ArgumentError::NotText(index + 1)),
        Some(text) => match parse_integer(text.as_str()) {
            None => Err(ArgumentError::NotInteger(index + 1)),
            Some(value) => {
                if value <= 0 {
                    return Err(ArgumentError::NotPositive(index + 1));
                }
                Ok(value)
            },
        },
    }
}

/// Reads the four values of a shape that begin at `start`.
pub fn parse_shape(arguments: &[Option<String>], start: usize) -> (result: Result<
    [i64; 4],
    ArgumentError,
>)
    requires
        start <= arguments@.len(),
    ensures
        match result {
            Ok(shape) => shape_of(argument_texts(arguments@), start as int) == Ok::<
                Seq<i64>,
                ArgumentError,
            >(shape@),
            Err(error) => shape_of(argument_texts(arguments@), start as int) == Err::<
                Seq<i64>,
                ArgumentError,
            >(error),
        },
{
    let first: i64 = match dimension(arguments, start, 0) {
        Ok(value) => value,
        Err(error) => {
            return Err(error);
        },
    };
    let second: i64 = match dimension(arguments, start, 1) {
        Ok(value) => value,
        Err(error) => {
            return Err(error);
        },
    };
    let third: i64 = match dimension(arguments, start, 2) {
        Ok(value) => value,
        Err(error) => {
            return Err(error);
        },
    };
    let fourth: i64 = match dimension(arguments, start, 3) {
        Ok(value) => value,
        Err(error) => {
            return Err(error);
        },
    };
    let shape: [i64; 4] = [first, second, third, fourth];
    assert(shape@ =~= seq![first, second, third, fourth]);
    Ok(shape)
}

/// What the arguments from `index` on ask for, after the paths and the shape
/// that came before; `None` asks for help.
pub open spec fn arguments_from(
    arguments: Seq<Option<Seq<char>>>,
    index: int,
    paths: Seq<int>,
    shape: Option<Seq<i64>>,
) -> Result<Option<(int, int, Seq<i64>)>, ArgumentError>
    decreases arguments.len() - index,
{
    if index < 0 || index >= arguments.len() {
        if paths.len() != 2 {
            Err(ArgumentError::Paths)
        } else {
            match shape {
                Some(shape) => Ok(Some((paths[0], paths[1], shape))),
                None => Err(ArgumentError::NoShape),
            }
        }
    } else {
        match arguments[index] {
            None => arguments_from(arguments, index + 1, paths.push(index), shape),
            Some(text) => if text == "--help"@ || text == "-h"@ {
                Ok(None)
            } else if text == "--shape"@ {
                if shape is Some {
                    Err(ArgumentError::RepeatedShape)
                } else {
                    match shape_of(arguments, index + 1) {
                        Ok(shape) => arguments_from(arguments, index + 5, paths, Some(shape)),
                        Err(error) => Err(error),
                    }
                }
            } else if text.len() > 0 && text[0] == '-' {
                Err(ArgumentError::UnknownOption(index as usize))
            } else {
                arguments_from(arguments, index + 1, paths.push(index), shape)
            },
        }
    }
}

/// Places as plain numbers.
pub open spec fn numbers(places: Seq<usize>) -> Seq<int> {
    places.map_values(|place: usize| place as int)
}

/// The shape, where it is known.
pub open spec fn maybe_shape(shape: Option<[i64; 4]>) -> Option<Seq<i64>> {
    match shape {
        Some(shape) => Some(shape@),
        None => None,
    }
}

/// Reads the arguments: two paths and the shape, in any order. `None` asks for
/// help. An argument that is not text is a path.
#[verifier::spinoff_prover]
pub fn parse_arguments(arguments: &[Option<String>]) -> (result: Result<
    Option<Arguments>,
    ArgumentError,
>)
    ensures
        ({
            let wanted = arguments_from(argument_texts(arguments@), 0, Seq::empty(), None);
            match result {
                Ok(Some(found)) => wanted == Ok::<Option<(int, int, Seq<i64>)>, ArgumentError>(
                    Some((found.input as int, found.output as int, found.shape@)),
                ),
                Ok(None) => wanted == Ok::<Option<(int, int, Seq<i64>)>, ArgumentError>(None),
                Err(error) => wanted == Err::<Option<(int, int, Seq<i64>)>, ArgumentError>(error),
            }
        }),
{
    let ghost all = argument_texts(arguments@);
    let help: Vec<char> = chars_of("--help");
    let brief: Vec<char> = chars_of("-h");
    let option: Vec<char> = chars_of("--shape");
    let len: usize = arguments.len();
    let mut places: Vec<usize> = Vec::new();
    let mut shape: Option<[i64; 4]> = None;
    let mut index: usize = 0;
    assert(numbers(places@) =~= Seq::<int>::empty());
    while index < len
        invariant
            len == arguments@.len(),
            index <= len,
            all == argument_texts(arguments@),
            help@ == "--help"@,
            brief@ == "-h"@,
            option@ == "--shape"@,
            arguments_from(all, index as int, numbers(places@), maybe_shape(shape))
                == arguments_from(all, 0, Seq::empty(), None),
        decreases len - index,
    {
        assert(all[index as int] == match arguments@[index as int] {
            Some(text) => Some(text@),
            None => None,
        });
        let mut path: bool = true;
        if let Some(text) = &arguments[index] {
            let characters: Vec<char> = chars_of(text.as_str());
            if same_text(characters.as_slice(), help.as_slice()) || same_text(
                characters.as_slice(),
                brief.as_slice(),
            ) {
                return Ok(None);
            }
            if same_text(characters.as_slice(), option.as_slice()) {
                if shape.is_some() {
                    return Err(ArgumentError::RepeatedShape);
                }
                match parse_shape(arguments, index + 1) {
                    Err(error) => {
                        return Err(error);
                    },
                    Ok(values) => {
                        assert(index + 5 <= len) by {
                            assert(dimension_of(all, index + 1, 3) is Ok);
                        }
                        shape = Some(values);
                        index = index + 5;
                        path = false;
                    },
                }
            } else if characters.len() > 0 && characters[0] == '-' {
                return Err(ArgumentError::UnknownOption(index));
            }
        }
        if path {
            let ghost before = numbers(places@);
            places.push(index);
            assert(numbers(places@) =~= before.push(index as int));
            index = index + 1;
        }
    }
    if places.len() != 2 {
        return Err(ArgumentError::Paths);
    }
    match shape {
        None => Err(ArgumentError::NoShape),
        Some(shape) => {
            assert(numbers(places@)[0] == places@[0] && numbers(places@)[1] == places@[1]);
            Ok(Some(Arguments { input: places[0], output: places[1], shape }))
        },
    }
}

/// A dimension of an input.
pub enum Dimension {
    /// Nothing is known of it.
    Unset,
    /// It is a number.
    Value(i64),
    /// It has a name.
    Named(String),
}

/// The tensor that an input receives.
pub struct TensorInfo {
    /// The kind of its elements; 0 is none.
    pub element: i32,
    /// Its dimensions, where they are known.
    pub shape: Option<Vec<Dimension>>,
}

/// What an input receives; `tensor` is `None` where that is no tensor.
pub struct TypeInfo {
    pub tensor: Option<TensorInfo>,
}

/// An input of a model.
pub struct InputInfo {
    pub kind: Option<TypeInfo>,
}

/// Why an input cannot have a fixed shape.
#[derive(Clone, Copy, Debug, PartialEq, Eq, Structural)]
pub enum InputError {
    /// The graph has no inputs, or several.
    Count,
    /// It has no type.
    NoType,
    /// It is no tensor.
    NotTensor,
    /// Its elements have no kind.
    NoElement,
}

/// Why an input cannot have a fixed shape; `None` where it can.
pub open spec fn input_error(input: InputInfo) -> Option<InputError> {
    match input.kind {
        None => Some(InputError::NoType),
        Some(kind) => match kind.tensor {
            None => Some(InputError::NotTensor),
            Some(tensor) => if tensor.element == 0 {
                Some(InputError::NoElement)
            } else {
                None
            },
        },
    }
}

/// Whether an input receives a tensor of this kind of elements and this shape.
pub open spec fn is_fixed(input: InputInfo, element: i32, shape: Seq<i64>) -> bool {
    match input.kind {
        None => false,
        Some(kind) => match kind.tensor {
            None => false,
            Some(tensor) => tensor.element == element && match tensor.shape {
                None => false,
                Some(dims) => dims@ == shape.map_values(|value: i64| Dimension::Value(value)),
            },
        },
    }
}

/// Gives an input a fixed shape in place of the one it has.
pub fn set_input_shape(input: &mut InputInfo, shape: [i64; 4]) -> (result: Result<(), InputError>)
    ensures
        match input_error(*old(input)) {
            Some(error) => result == Err::<(), InputError>(error) && *final(input) == *old(input),
            None => {
                &&& result == Ok::<(), InputError>(())
                &&& is_fixed(
                    *final(input),
                    old(input).kind->Some_0.tensor->Some_0.element,
                    shape@,
                )
            },
        },
{
    let element: i32 = match &input.kind {
        None => {
            return Err(InputError::NoType);
        },
        Some(kind) => match &kind.tensor {
            None => {
                return Err(InputError::NotTensor);
            },
            Some(tensor) => tensor.element,
        },
    };
    if element == 0 {
        return Err(InputError::NoElement);
    }
    let mut dims: Vec<Dimension> = Vec::new();
    let ghost wanted = shape@.map_values(|value: i64| Dimension::Value(value));
    assert(dims@ =~= wanted.take(0));
    for index in 0..4usize
        invariant
            wanted == shape@.map_values(|value: i64| Dimension::Value(value)),
            dims@ == wanted.take(index as int),
    {
        dims.push(Dimension::Value(shape[index]));
        assert(dims@ =~= wanted.take(index + 1));
    }
    assert(wanted.take(4) =~= wanted);
    input.kind = Some(TypeInfo { tensor: Some(TensorInfo { element, shape: Some(dims) }) });
    Ok(())
}

/// Why the inputs of a graph cannot have a fixed shape; `None` where they can.
pub open spec fn inputs_error(inputs: Seq<InputInfo>) -> Option<InputError> {
    if inputs.len() != 1 {
        Some(InputError::Count)
    } else {
        input_error(inputs[0])
    }
}

/// Gives the only input of a graph a fixed shape.
pub fn set_graph_input_shape(inputs: &mut Vec<InputInfo>, shape: [i64; 4]) -> (result: Result<
    (),
    InputError,
>)
    ensures
        match inputs_error(old(inputs)@) {
            Some(error) => result == Err::<(), InputError>(error) && final(inputs)@
                == old(inputs)@,
            None => {
                &&& result == Ok::<(), InputError>(())
                &&& final(inputs)@.len() == 1
                &&& is_fixed(
                    final(inputs)@[0],
                    old(inputs)@[0].kind->Some_0.tensor->Some_0.element,
                    shape@,
                )
            },
        },
{
    if inputs.len() != 1 {
        return Err(InputError::Count);
    }
    let ghost before = inputs@;
    let mut input: InputInfo = inputs.remove(0);
    let result: Result<(), InputError> = set_input_shape(&mut input, shape);
    inputs.push(input);
    assert(result is Err ==> inputs@ =~= before);
    result
}

} // verus!
