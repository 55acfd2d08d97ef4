//! Benchmarks of one model: their inputs, and what is told of their outputs.
use vstd::prelude::*;
use crate::cpu_sets::{little_endian, read_little_endian};
use crate::index::lemma_row_bound;
use crate::shape::{counts, element_count, lemma_product_bounds, product};
use crate::single::{all_finite, are_finite, argmax, argmax_of, Single};

verus! {

/// The role of a model.
#[derive(Clone, Copy, Debug, PartialEq, Eq, Structural)]
pub enum ModelKind {
    Detector,
    Recognizer,
}

/// How a pinned model package is obtained.
#[derive(Clone, Copy, Debug, PartialEq, Eq, Structural)]
pub enum ModelAccess {
    /// From the cache, or else from where it was released.
    Online,
    /// From the cache alone.
    Offline,
    /// From the cache, with its hashes computed anew.
    Verify,
}

/// The model that is measured.
#[derive(Clone, Copy, Debug, PartialEq, Eq, Structural)]
pub enum BenchmarkKind {
    Detector,
    Recognizer,
}

impl BenchmarkKind {
    /// The name on the command line.
    pub fn as_str(self) -> (result: &'static str)
        ensures
            result@ == match self {
                BenchmarkKind::Detector => "det"@,
                BenchmarkKind::Recognizer => "rec"@,
            },
    {
        match self {
            BenchmarkKind::Detector => "det",
            BenchmarkKind::Recognizer => "rec",
        }
    }

    /// The role of the model.
    pub fn model_kind(self) -> (result: ModelKind)
        ensures
            result == match self {
                BenchmarkKind::Detector => ModelKind::Detector,
                BenchmarkKind::Recognizer => ModelKind::Recognizer,
            },
    {
        match self {
            BenchmarkKind::Detector => ModelKind::Detector,
            BenchmarkKind::Recognizer => ModelKind::Recognizer,
        }
    }

    /// The rows and columns of the input where none are asked for.
    pub open spec fn dimensions(self) -> (usize, usize) {
        match self {
            BenchmarkKind::Detector => (416, 736),
            BenchmarkKind::Recognizer => (48, 320),
        }
    }

    /// The rows and columns of the input where none are asked for.
    pub fn default_dimensions(self) -> (result: (usize, usize))
        ensures
            result == self.dimensions(),
    {
        match self {
            BenchmarkKind::Detector => (416, 736),
            BenchmarkKind::Recognizer => (48, 320),
        }
    }
}

/// Where pinned model packages are kept and how they are obtained.
#[derive(Clone, Debug)]
pub struct ModelStoreArgs {
    pub model_dir: String,
    pub offline: bool,
    pub verify_models: bool,
}

impl ModelStoreArgs {
    /// How a package is obtained.
    pub fn access(&self) -> (result: ModelAccess)
        ensures
            result == if self.verify_models {
                ModelAccess::Verify
            } else if self.offline {
                ModelAccess::Offline
            } else {
                ModelAccess::Online
            },
    {
        if self.verify_models {
            ModelAccess::Verify
        } else if self.offline {
            ModelAccess::Offline
        } else {
            ModelAccess::Online
        }
    }
}

/// Why a benchmark was refused.
#[derive(Clone, Copy, Debug, PartialEq, Eq, Structural)]
pub enum BenchmarkError {
    /// The number of threads is zero.
    Threads,
    /// The number of runs is zero.
    Runs,
    /// The height is zero.
    Height,
    /// The width is zero.
    Width,
    /// The input has more values than can be counted.
    InputOverflow,
    /// The file holds this many bytes.
    FileLength(usize),
    /// The output has no values.
    EmptyOutput,
    /// The output has an infinite value or one that is not a number.
    NonFiniteOutput,
    /// The reference has another number of values.
    ReferenceLength { reference: usize, output: usize },
    /// The reference has an infinite value or one that is not a number.
    NonFiniteReference,
    /// The output has no class axis.
    NoClassAxis,
    /// The class axis is empty.
    EmptyClassAxis,
    /// The output is not whole rows of classes.
    UnevenClasses { values: usize, classes: usize },
    /// There are other than the asked number of samples.
    Samples { samples: usize, runs: usize },
    /// There are no samples.
    NoSamples,
}

/// What is asked of a benchmark.
#[derive(Clone, Debug)]
pub struct BenchmarkArgs {
    pub kind: BenchmarkKind,
    pub height: Option<usize>,
    pub width: Option<usize>,
    pub warmup: usize,
    pub runs: usize,
}

impl BenchmarkArgs {
    /// The asked or else the usual rows.
    pub open spec fn rows(self) -> usize {
        match self.height {
            Some(height) => height,
            None => self.kind.dimensions().0,
        }
    }

    /// The asked or else the usual columns.
    pub open spec fn columns(self) -> usize {
        match self.width {
            Some(width) => width,
            None => self.kind.dimensions().1,
        }
    }

    /// The shape of the input.
    pub fn input_shape(&self) -> (result: Result<[usize; 4], BenchmarkError>)
        ensures
            match result {
                Ok(shape) => {
                    &&& self.runs > 0 && self.rows() > 0 && self.columns() > 0
                    &&& shape@ == seq![1usize, 3usize, self.rows(), self.columns()]
                },
                Err(error) => if self.runs == 0 {
                    error == BenchmarkError::Runs
                } else if self.rows() == 0 {
                    error == BenchmarkError::Height
                } else {
                    self.columns() == 0 && error == BenchmarkError::Width
                },
            },
    {
        if self.runs == 0 {
            return Err(BenchmarkError::Runs);
        }
        let (default_height, default_width): (usize, usize) = self.kind.default_dimensions();
        let height: usize = match self.height {
            Some(height) => height,
            None => default_height,
        };
        let width: usize = match self.width {
            Some(width) => width,
            None => default_width,
        };
        if height == 0 {
            return Err(BenchmarkError::Height);
        }
        if width == 0 {
            return Err(BenchmarkError::Width);
        }
        let shape: [usize; 4] = [1, 3, height, width];
        assert(shape@ =~= seq![1usize, 3usize, self.rows(), self.columns()]);
        Ok(shape)
    }

    /// The values of the input: those of the given file, or else generated ones.
    /// `value` maps a number of 24 bits to a value.
    pub fn input_values<V: Fn(u32) -> Single>(
        &self,
        shape: [usize; 4],
        file: Option<&[u8]>,
        value: &V,
    ) -> (result: Result<Vec<Single>, BenchmarkError>)
        requires
            forall|number: u32| #[trigger] call_requires(*value, (number,)),
        ensures
            match result {
                Ok(values) => {
                    &&& counts(shape@)
                    &&& values@.len() == product(shape@)
                    &&& match file {
                        Some(bytes) => bytes@.len() == product(shape@) * 4 && values@ == decoded(
                            bytes@,
                        ),
                        None => forall|i: int|
                            0 <= i < values@.len() ==> call_ensures(
                                *value,
                                ((generator_state(i + 1) / 0x100) as u32,),
                                #[trigger] values@[i],
                            ),
                    }
                },
                Err(error) => if !counts(shape@) {
                    error == BenchmarkError::InputOverflow
                } else {
                    &&& file is Some
                    &&& file->Some_0@.len() != product(shape@) * 4
                    &&& error == BenchmarkError::FileLength(file->Some_0@.len() as usize)
                },
            },
    {
        let length: usize = match input_length(shape) {
            Err(error) => {
                return Err(error);
            },
            Ok(length) => length,
        };
        match file {
            Some(bytes) => read_f32(bytes, length),
            None => {
                let numbers: Vec<u32> = deterministic_input(length);
                let mut values: Vec<Single> = Vec::new();
                for index in 0..length
                    invariant
                        length == numbers@.len(),
                        forall|number: u32| #[trigger] call_requires(*value, (number,)),
                        forall|i: int|
                            0 <= i < length ==> #[trigger] numbers@[i] == generator_state(i + 1)
                                / 0x100,
                        values@.len() == index,
                        forall|i: int|
                            0 <= i < index ==> call_ensures(
                                *value,
                                ((generator_state(i + 1) / 0x100) as u32,),
                                #[trigger] values@[i],
                            ),
                {
                    values.push(value(numbers[index]));
                }
                Ok(values)
            },
        }
    }
}

/// The state of the generator after `count` steps.
pub open spec fn generator_state(count: int) -> int
    decreases count,
{
    if count <= 0 {
        0x243f_6a88
    } else {
        (generator_state(count - 1) * 1_664_525 + 1_013_904_223) % 0x1_0000_0000
    }
}

/// The numbers, of 24 bits, that a deterministic input is made of.
pub fn deterministic_input(length: usize) -> (result: Vec<u32>)
    ensures
        result@.len() == length,
        forall|i: int|
            0 <= i < length ==> #[trigger] result@[i] == generator_state(i + 1) / 0x100,
{
    let mut state: u32 = 0x243f_6a88;
    let mut result: Vec<u32> = Vec::new();
    for index in 0..length
        invariant
            state == generator_state(index as int),
            result@.len() == index,
            forall|i: int|
                0 <= i < index ==> #[trigger] result@[i] == generator_state(i + 1) / 0x100,
    {
        let wide: u64 = state as u64 * 1_664_525 + 1_013_904_223;
        state = (wide % 0x1_0000_0000) as u32;
        result.push(state / 0x100);
    }
    result
}

/// One number of the input for a graphics device.
pub open spec fn device_value(index: int) -> int {
    (index * 73 + 19) % 1_024 - 512
}

proof fn lemma_device_value(index: int)
    ensures
        device_value(index + 1) == (device_value(index) + 512 + 73) % 1_024 - 512,
        -512 <= device_value(index) < 512,
{
    vstd::arithmetic::div_mod::lemma_add_mod_noop(index * 73 + 19, 73, 1_024);
}

/// The numbers from -512 to 511 that the input for a graphics device is made of.
pub fn deterministic_device_input(length: usize) -> (result: Vec<i32>)
    ensures
        result@.len() == length,
        forall|i: int| 0 <= i < length ==> #[trigger] result@[i] == device_value(i),
{
    let mut result: Vec<i32> = Vec::new();
    let mut value: i32 = -493;
    for index in 0..length
        invariant
            value == device_value(index as int),
            result@.len() == index,
            forall|i: int| 0 <= i < index ==> #[trigger] result@[i] == device_value(i),
    {
        proof {
            lemma_device_value(index as int);
        }
        result.push(value);
        value = (value + 585) % 1_024 - 512;
    }
    result
}

/// The number of values of an input.
pub fn input_length(shape: [usize; 4]) -> (result: Result<usize, BenchmarkError>)
    ensures
        match result {
            Ok(count) => counts(shape@) && count == product(shape@),
            Err(error) => !counts(shape@) && error == BenchmarkError::InputOverflow,
        },
{
    let sizes: &[usize] = shape.as_slice();
    proof {
        assert(sizes@ =~= shape@);
        assert(shape@.take(4) =~= shape@);
        lemma_product_bounds(shape@);
    }
    match element_count(sizes) {
        Some(count) => Ok(count),
        None => Err(BenchmarkError::InputOverflow),
    }
}

/// The numbers that bytes stand for, four for each, the least byte first.
pub open spec fn decoded(bytes: Seq<u8>) -> Seq<Single> {
    Seq::new(
        (bytes.len() / 4) as nat,
        |i: int| Single { bits: little_endian(bytes, i * 4) as u32 },
    )
}

/// The bytes of numbers, the least byte first.
pub open spec fn encoded(values: Seq<Single>) -> Seq<u8> {
    Seq::new(
        (values.len() * 4) as nat,
        |i: int| byte_of(values[i / 4].bits, i % 4),
    )
}

/// One byte of a number, counted from the least.
pub open spec fn byte_of(bits: u32, index: int) -> u8 {
    if index == 0 {
        (bits % 0x100) as u8
    } else if index == 1 {
        (bits / 0x100 % 0x100) as u8
    } else if index == 2 {
        (bits / 0x1_0000 % 0x100) as u8
    } else {
        (bits / 0x100_0000) as u8
    }
}

fn decode(bytes: &[u8]) -> (result: Vec<Single>)
    requires
        bytes@.len() % 4 == 0,
    ensures
        result@ == decoded(bytes@),
{
    let len: usize = bytes.len();
    let mut result: Vec<Single> = Vec::new();
    for index in 0..len / 4
        invariant
            len == bytes@.len(),
            len % 4 == 0,
            result@ == decoded(bytes@).take(index as int),
    {
        let value: Single = Single { bits: read_little_endian(bytes, index * 4) };
        result.push(value);
        assert(decoded(bytes@)[index as int] == value);
        assert(result@ =~= decoded(bytes@).take(index + 1));
    }
    assert(decoded(bytes@).take((len / 4) as int) =~= decoded(bytes@));
    result
}

/// Reads a file of exactly the expected number of values.
pub fn read_f32(bytes: &[u8], expected: usize) -> (result: Result<Vec<Single>, BenchmarkError>)
    ensures
        match result {
            Ok(values) => bytes@.len() == expected * 4 && values@ == decoded(bytes@),
            Err(error) => bytes@.len() != expected * 4 && error == BenchmarkError::FileLength(
                bytes@.len() as usize,
            ),
        },
{
    let len: usize = bytes.len();
    if len % 4 != 0 || len / 4 != expected {
        return Err(BenchmarkError::FileLength(len));
    }
    Ok(decode(bytes))
}

/// Reads a file of any whole number of values.
pub fn read_all_f32(bytes: &[u8]) -> (result: Result<Vec<Single>, BenchmarkError>)
    ensures
        match result {
            Ok(values) => bytes@.len() % 4 == 0 && values@ == decoded(bytes@),
            Err(error) => bytes@.len() % 4 != 0 && error == BenchmarkError::FileLength(
                bytes@.len() as usize,
            ),
        },
{
    let len: usize = bytes.len();
    if len % 4 != 0 {
        return Err(BenchmarkError::FileLength(len));
    }
    Ok(decode(bytes))
}

/// The bytes that values are written as.
pub fn write_f32(values: &[Single]) -> (result: Vec<u8>)
    ensures
        result@ == encoded(values@),
{
    let mut result: Vec<u8> = Vec::new();
    assert(encoded(values@).take(0) =~= result@);
    for index in 0..values.len()
        invariant
            result@ == encoded(values@).take(index * 4),
    {
        let bits: u32 = values[index].bits;
        result.push((bits % 0x100) as u8);
        result.push((bits / 0x100 % 0x100) as u8);
        result.push((bits / 0x1_0000 % 0x100) as u8);
        result.push((bits / 0x100_0000) as u8);
        proof {
            let all = encoded(values@);
            let place: int = index * 4;
            assert(all[place] == byte_of(bits, 0));
            assert(all[place + 1] == byte_of(bits, 1));
            assert(all[place + 2] == byte_of(bits, 2));
            assert(all[place + 3] == byte_of(bits, 3));
            assert(result@ =~= all.take((index + 1) * 4));
        }
    }
    assert(encoded(values@).take(values@.len() as int * 4) =~= encoded(values@));
    result
}

/// Values that are written and read again are the same.
pub proof fn lemma_read_written(values: Seq<Single>)
    ensures
        decoded(encoded(values)) == values,
        encoded(values).len() == values.len() * 4,
{
    let bytes = encoded(values);
    assert(bytes.len() == values.len() * 4);
    assert forall|i: int| 0 <= i < values.len() implies decoded(bytes)[i] == values[i] by {
        let bits = values[i].bits;
        assert(bytes[i * 4] == byte_of(bits, 0));
        assert(bytes[i * 4 + 1] == byte_of(bits, 1));
        assert(bytes[i * 4 + 2] == byte_of(bits, 2));
        assert(bytes[i * 4 + 3] == byte_of(bits, 3));
        assert(little_endian(bytes, i * 4) == bits);
    }
    assert(decoded(bytes) =~= values);
}

/// Why an output is refused; `None` where it is not.
pub open spec fn output_error(values: Seq<Single>) -> Option<BenchmarkError> {
    if values.len() == 0 {
        Some(BenchmarkError::EmptyOutput)
    } else if !all_finite(values) {
        Some(BenchmarkError::NonFiniteOutput)
    } else {
        None
    }
}

/// Checks that an output has values and that they are finite.
pub fn validate_output(values: &[Single]) -> (result: Result<(), BenchmarkError>)
    ensures
        result == match output_error(values@) {
            Some(error) => Err::<(), BenchmarkError>(error),
            None => Ok(()),
        },
{
    if values.len() == 0 {
        return Err(BenchmarkError::EmptyOutput);
    }
    if !are_finite(values) {
        return Err(BenchmarkError::NonFiniteOutput);
    }
    Ok(())
}

/// The least and the greatest value of an output, and their sum.
pub struct OutputSummary<S> {
    pub minimum: Single,
    pub maximum: Single,
    pub sum: S,
}

/// Whether `total` is what the addition may give for the values.
pub open spec fn adds_up<S, T: Fn(Vec<Single>) -> S>(
    addition: T,
    values: Seq<Single>,
    total: S,
) -> bool {
    exists|list: Vec<Single>| list@ == values && #[trigger] call_ensures(addition, (list,), total)
}

/// Summarises an output. `sum` adds values up.
pub fn summarize_output<S, T: Fn(Vec<Single>) -> S>(values: &[Single], sum: &T) -> (result: Result<
    OutputSummary<S>,
    BenchmarkError,
>)
    requires
        forall|list: Vec<Single>| #[trigger] call_requires(*sum, (list,)),
    ensures
        match result {
            Ok(summary) => {
                &&& output_error(values@) is None
                &&& values@.contains(summary.minimum)
                &&& values@.contains(summary.maximum)
                &&& forall|i: int|
                    0 <= i < values@.len() ==> summary.minimum.rank() <= (
                    #[trigger] values@[i]).rank() <= summary.maximum.rank()
                &&& adds_up(*sum, values@, summary.sum)
            },
            Err(error) => output_error(values@) == Some(error),
        },
{
    match validate_output(values) {
        Err(error) => {
            return Err(error);
        },
        Ok(_) => {},
    }
    let mut minimum: Single = values[0];
    let mut maximum: Single = values[0];
    for index in 1..values.len()
        invariant
            1 <= index <= values@.len(),
            output_error(values@) is None,
            values@.contains(minimum),
            values@.contains(maximum),
            forall|i: int|
                0 <= i < index ==> minimum.rank() <= (#[trigger] values@[i]).rank()
                    <= maximum.rank(),
    {
        let value: Single = values[index];
        if value.place() < minimum.place() {
            minimum = value;
        }
        if value.place() > maximum.place() {
            maximum = value;
        }
    }
    let list: Vec<Single> = vstd::slice::slice_to_vec(values);
    let ghost given = list;
    assert(given@ =~= values@);
    let total: S = sum(list);
    assert(adds_up(*sum, values@, total)) by {
        assert(call_ensures(*sum, (given,), total));
    }
    Ok(OutputSummary { minimum, maximum, sum: total })
}

/// Whether a value is at least one half.
pub open spec fn at_least_half(value: Single) -> bool {
    value.rank() >= 0x3f00_0000
}

/// The number of values, of the first `count`, that are on different sides of one half.
pub open spec fn threshold_mismatches(
    actual: Seq<Single>,
    expected: Seq<Single>,
    count: int,
) -> int
    decreases count,
{
    if count <= 0 {
        0
    } else {
        threshold_mismatches(actual, expected, count - 1) + if at_least_half(actual[count - 1])
            != at_least_half(expected[count - 1]) {
            1int
        } else {
            0int
        }
    }
}

/// The class of a row: the last of the greatest values.
pub open spec fn row_class(values: Seq<Single>, classes: int, row: int) -> int {
    argmax_of(values.subrange(row * classes, row * classes + classes), classes)
}

/// The number of rows, of the first `count`, with different classes.
pub open spec fn class_mismatches(
    actual: Seq<Single>,
    expected: Seq<Single>,
    classes: int,
    count: int,
) -> int
    decreases count,
{
    if count <= 0 {
        0
    } else {
        class_mismatches(actual, expected, classes, count - 1) + if row_class(
            actual,
            classes,
            count - 1,
        ) != row_class(expected, classes, count - 1) {
            1int
        } else {
            0int
        }
    }
}

/// What is told of an output and a reference: how many values or rows differ.
pub open spec fn compared(
    kind: BenchmarkKind,
    shape: Seq<usize>,
    actual: Seq<Single>,
    expected: Seq<Single>,
) -> Result<int, BenchmarkError> {
    if output_error(actual) is Some {
        Err(output_error(actual)->Some_0)
    } else if actual.len() != expected.len() {
        Err(
            BenchmarkError::ReferenceLength {
                reference: expected.len() as usize,
                output: actual.len() as usize,
            },
        )
    } else if !all_finite(expected) {
        Err(BenchmarkError::NonFiniteReference)
    } else if kind == BenchmarkKind::Detector {
        Ok(threshold_mismatches(actual, expected, actual.len() as int))
    } else if shape.len() == 0 {
        Err(BenchmarkError::NoClassAxis)
    } else if shape.last() == 0 {
        Err(BenchmarkError::EmptyClassAxis)
    } else if actual.len() % shape.last() as nat != 0 {
        Err(BenchmarkError::UnevenClasses { values: actual.len() as usize, classes: shape.last() })
    } else {
        Ok(
            class_mismatches(
                actual,
                expected,
                shape.last() as int,
                actual.len() as int / shape.last() as int,
            ),
        )
    }
}

fn count_class_mismatches(
    actual: &[Single],
    expected: &[Single],
    classes: usize,
    rows: usize,
) -> (result: usize)
    requires
        classes > 0,
        actual@.len() == expected@.len(),
        rows * classes <= actual@.len(),
    ensures
        result == class_mismatches(actual@, expected@, classes as int, rows as int),
{
    let len: usize = actual.len();
    let mut mismatches: usize = 0;
    let mut start: usize = 0;
    proof {
        vstd::arithmetic::mul::lemma_mul_basics(classes as int);
    }
    for row in 0..rows
        invariant
            classes > 0,
            len == actual@.len(),
            len == expected@.len(),
            rows * classes <= len,
            start == row * classes,
            mismatches <= row,
            mismatches == class_mismatches(actual@, expected@, classes as int, row as int),
    {
        proof {
            lemma_row_bound(row as int, rows as int, classes as int - 1, classes as int);
            assert(row * classes + classes == (row + 1) * classes) by (nonlinear_arith);
        }
        if argmax(actual, start, classes) != argmax(expected, start, classes) {
            mismatches = mismatches + 1;
        }
        start = start + classes;
    }
    mismatches
}

/// Compares an output with a reference: how many values are on different sides
/// of one half, or how many rows have different classes.
pub fn report_reference(
    kind: BenchmarkKind,
    shape: &[usize],
    actual: &[Single],
    expected: &[Single],
) -> (result: Result<usize, BenchmarkError>)
    ensures
        match result {
            Ok(mismatches) => compared(kind, shape@, actual@, expected@) == Ok::<
                int,
                BenchmarkError,
            >(mismatches as int),
            Err(error) => compared(kind, shape@, actual@, expected@) == Err::<int, BenchmarkError>(
                error,
            ),
        },
{
    match validate_output(actual) {
        Ok(()) => {},
        Err(error) => {
            return Err(error);
        },
    }
    let len: usize = actual.len();
    if len != expected.len() {
        return Err(BenchmarkError::ReferenceLength { reference: expected.len(), output: len });
    }
    if !are_finite(expected) {
        return Err(BenchmarkError::NonFiniteReference);
    }
    match kind {
        BenchmarkKind::Detector => {
            let mut mismatches: usize = 0;
            for index in 0..len
                invariant
                    len == actual@.len(),
                    len == expected@.len(),
                    mismatches <= index,
                    mismatches == threshold_mismatches(actual@, expected@, index as int),
            {
                if (actual[index].place() >= 0x3f00_0000) != (expected[index].place()
                    >= 0x3f00_0000) {
                    mismatches = mismatches + 1;
                }
            }
            Ok(mismatches)
        },
        BenchmarkKind::Recognizer => {
            let rank: usize = shape.len();
            if rank == 0 {
                return Err(BenchmarkError::NoClassAxis);
            }
            let classes: usize = shape[rank - 1];
            if classes == 0 {
                return Err(BenchmarkError::EmptyClassAxis);
            }
            if len % classes != 0 {
                return Err(BenchmarkError::UnevenClasses { values: len, classes });
            }
            let rows: usize = len / classes;
            proof {
                vstd::arithmetic::div_mod::lemma_fundamental_div_mod(len as int, classes as int);
                assert(rows * classes == classes * rows) by (nonlinear_arith);
            }
            Ok(count_class_mismatches(actual, expected, classes, rows))
        },
    }
}

/// An output compared with itself differs nowhere.
pub proof fn lemma_compared_same(kind: BenchmarkKind, shape: Seq<usize>, values: Seq<Single>)
    ensures
        match compared(kind, shape, values, values) {
            Ok(mismatches) => mismatches == 0,
            Err(_) => true,
        },
{
    lemma_no_threshold_mismatches(values, values.len() as int);
    if shape.len() > 0 && shape.last() > 0 {
        lemma_no_class_mismatches(
            values,
            shape.last() as int,
            values.len() as int / shape.last() as int,
        );
    }
}

proof fn lemma_no_threshold_mismatches(values: Seq<Single>, count: int)
    ensures
        threshold_mismatches(values, values, count) == 0,
    decreases count,
{
    if count > 0 {
        lemma_no_threshold_mismatches(values, count - 1);
    }
}

proof fn lemma_no_class_mismatches(values: Seq<Single>, classes: int, count: int)
    ensures
        class_mismatches(values, values, classes, count) == 0,
    decreases count,
{
    if count > 0 {
        lemma_no_class_mismatches(values, classes, count - 1);
    }
}

/// Checks that there is a sample for every run.
pub fn check_samples(samples: usize, runs: usize) -> (result: Result<(), BenchmarkError>)
    ensures
        result == if samples == runs {
            Ok::<(), BenchmarkError>(())
        } else {
            Err(BenchmarkError::Samples { samples, runs })
        },
{
    if samples != runs {
        return Err(BenchmarkError::Samples { samples, runs });
    }
    Ok(())
}

/// Samples from the least to the greatest.
pub open spec fn rising(samples: Seq<u64>) -> bool {
    forall|i: int, j: int| 0 <= i < j < samples.len() ==> samples[i] <= samples[j]
}

/// The samples from the least to the greatest.
pub fn sort_samples(samples: &[u64]) -> (result: Vec<u64>)
    ensures
        result@.to_multiset() == samples@.to_multiset(),
        rising(result@),
{
    let mut sorted: Vec<u64> = Vec::new();
    assert(samples@.take(0) =~= Seq::<u64>::empty());
    for index in 0..samples.len()
        invariant
            sorted@.to_multiset() == samples@.take(index as int).to_multiset(),
            rising(sorted@),
    {
        let sample: u64 = samples[index];
        let mut place: usize = sorted.len();
        while place > 0 && sorted[place - 1] > sample
            invariant
                place <= sorted@.len(),
                rising(sorted@),
                forall|i: int| place <= i < sorted@.len() ==> sorted@[i] > sample,
            decreases place,
        {
            place = place - 1;
        }
        let ghost before = sorted@;
        sorted.insert(place, sample);
        proof {
            assert(sorted@ =~= before.insert(place as int, sample));
            before.to_multiset_ensures();
            vstd::seq_lib::to_multiset_insert(before, place as int, sample);
            let shorter = samples@.take(index as int);
            assert(samples@.take(index + 1) =~= shorter.push(sample));
            shorter.to_multiset_ensures();
            assert forall|i: int, j: int| 0 <= i < j < sorted@.len() implies sorted@[i]
                <= sorted@[j] by {
                if j < place {
                    assert(before[i] <= before[j]);
                } else if i < place && j > place {
                    assert(before[i] <= before[j - 1]);
                } else if i < place {
                    assert(before[i] <= before[place - 1]);
                } else if i > place {
                    assert(before[i - 1] <= before[j - 1]);
                }
            }
        }
    }
    assert(samples@.take(samples@.len() as int) =~= samples@);
    sorted
}

/// The halfway sample and those below which 90 and 95 of 100 lie.
pub fn timing_percentiles(samples: &[u64]) -> (result: Result<[u64; 3], BenchmarkError>)
    ensures
        match result {
            Ok(found) => samples@.len() > 0 && exists|sorted: Seq<u64>|
                {
                    let last: int = sorted.len() - 1;
                    &&& sorted.to_multiset() == samples@.to_multiset()
                    &&& #[trigger] rising(sorted)
                    &&& found@ == seq![
                        sorted[(last * 50 + 50) / 100],
                        sorted[(last * 90 + 50) / 100],
                        sorted[(last * 95 + 50) / 100],
                    ]
                },
            Err(error) => samples@.len() == 0 && error == BenchmarkError::NoSamples,
        },
{
    if samples.len() == 0 {
        return Err(BenchmarkError::NoSamples);
    }
    let sorted: Vec<u64> = sort_samples(samples);
    proof {
        samples@.to_multiset_ensures();
        sorted@.to_multiset_ensures();
    }
    let found: [u64; 3] = [
        nearest_percentile(sorted.as_slice(), 50),
        nearest_percentile(sorted.as_slice(), 90),
        nearest_percentile(sorted.as_slice(), 95),
    ];
    assert(rising(sorted@));
    assert(found@ =~= seq![
        sorted@[((sorted@.len() - 1) * 50 + 50) / 100],
        sorted@[((sorted@.len() - 1) * 90 + 50) / 100],
        sorted@[((sorted@.len() - 1) * 95 + 50) / 100],
    ]);
    Ok(found)
}

/// The sample below which the given percentage of the sorted samples lies, its
/// place rounded down.
pub fn percentile<T: Copy>(sorted: &[T], percentage: usize) -> (result: T)
    requires
        sorted@.len() > 0,
        percentage <= 100,
    ensures
        result == sorted@[(sorted@.len() - 1) * percentage / 100],
{
    let last: usize = sorted.len() - 1;
    proof {
        assert(last * percentage <= last * 100) by (nonlinear_arith)
            requires
                percentage <= 100,
                last >= 0,
        ;
        assert(0 <= last * percentage) by (nonlinear_arith)
            requires
                percentage >= 0,
                last >= 0,
        ;
    }
    let scaled: u128 = last as u128 * percentage as u128;
    let index: u128 = scaled / 100;
    sorted[index as usize]
}

/// The sample below which the given percentage of the sorted samples lies, its
/// place rounded to the nearest, halves upwards.
pub fn nearest_percentile<T: Copy>(sorted: &[T], percentage: usize) -> (result: T)
    requires
        sorted@.len() > 0,
        percentage <= 100,
    ensures
        result == sorted@[((sorted@.len() - 1) * percentage + 50) / 100],
{
    let last: usize = sorted.len() - 1;
    proof {
        assert(last * percentage <= last * 100) by (nonlinear_arith)
            requires
                percentage <= 100,
                last >= 0,
        ;
        assert(0 <= last * percentage) by (nonlinear_arith)
            requires
                percentage >= 0,
                last >= 0,
        ;
    }
    let scaled: u128 = last as u128 * percentage as u128 + 50;
    let index: u128 = scaled / 100;
    sorted[index as usize]
}

/// Where the dictionary of a recognizer is.
#[derive(Clone, Copy, Debug, PartialEq, Eq, Structural)]
pub enum DictionarySource {
    /// At the path that was given.
    Given,
    /// In the pinned package of the recognizer.
    Pinned,
    /// Beside the recognizer that was given.
    Beside,
}

/// Which pinned packages are needed, and where the dictionary is.
#[derive(Clone, Copy, Debug, PartialEq, Eq, Structural)]
pub struct ModelPlan {
    pub pinned_detector: bool,
    pub pinned_recognizer: bool,
    pub dictionary: DictionarySource,
}

/// What is needed beside the paths that were given.
pub fn resolve_models(detector: bool, recognizer: bool, dictionary: bool) -> (result: ModelPlan)
    ensures
        result.pinned_detector == !detector,
        result.pinned_recognizer == !recognizer,
        result.dictionary == if dictionary {
            DictionarySource::Given
        } else if recognizer {
            DictionarySource::Beside
        } else {
            DictionarySource::Pinned
        },
{
    ModelPlan {
        pinned_detector: !detector,
        pinned_recognizer: !recognizer,
        dictionary: if dictionary {
            DictionarySource::Given
        } else if recognizer {
            DictionarySource::Beside
        } else {
            DictionarySource::Pinned
        },
    }
}

} // verus!
