//! The tensors of a released model, by name.
use vstd::prelude::*;
use crate::benchmark::{decoded, read_all_f32};
use crate::shape::{count_of, element_count, IntoShape};
use crate::single::Single;
use crate::tensor::{DataView, Tensor, TensorView};
use crate::text::{chars_of, decimal, same_text, string_of, write_decimal};

verus! {

/// Why a model could not be loaded.
#[derive(Clone, Copy, Debug, PartialEq, Eq, Structural)]
pub enum WeightsError {
    /// The length of the archive that the header tells cannot be counted.
    LengthOverflow,
    /// The bytes are no archive of tensors.
    Decode,
    /// A tensor has other values than single-precision numbers.
    Dtype,
    /// The elements of a shape cannot be counted.
    ShapeOverflow,
    /// The bytes of a shape cannot be counted.
    ByteOverflow,
    /// A tensor has another number of bytes than its shape says.
    ByteLength,
    /// There is no tensor of this name.
    Missing,
    /// The tensor has another shape.
    Shape,
}

/// A tensor of an archive.
pub struct ArchiveEntry {
    pub name: String,
    /// Whether the values are single-precision numbers.
    pub single: bool,
    pub shape: Vec<usize>,
    pub data: Vec<u8>,
}

/// What an archive holds under one name.
pub struct EntryView {
    pub single: bool,
    pub shape: Seq<usize>,
    pub data: Seq<u8>,
}

/// What an entry holds.
pub open spec fn entry_view(entry: ArchiveEntry) -> EntryView {
    EntryView { single: entry.single, shape: entry.shape@, data: entry.data@ }
}

/// Whether the names are all different.
pub open spec fn distinct(entries: Seq<ArchiveEntry>) -> bool {
    forall|i: int, j: int|
        0 <= i < j < entries.len() ==> (#[trigger] entries[i]).name@ != (
        #[trigger] entries[j]).name@
}

/// What entries hold, by name.
pub open spec fn entry_map(entries: Seq<ArchiveEntry>) -> Map<Seq<char>, EntryView>
    decreases entries.len(),
{
    if entries.len() == 0 {
        Map::empty()
    } else {
        entry_map(entries.drop_last()).insert(entries.last().name@, entry_view(entries.last()))
    }
}

/// The tensors that `safetensors::SafeTensors::deserialize` finds in bytes;
/// `None` where it refuses them.
pub uninterp spec fn archive_of(bytes: Seq<u8>) -> Option<Map<Seq<char>, EntryView>>;

/// The error of the `safetensors` crate.
#[verifier::external_type_specification]
#[verifier::external_body]
pub struct ExSafeTensorError(safetensors::SafeTensorError);

/// Where the data of an archive ends that has the given header, counted from the
/// header's end: what `serde_json::from_slice` reads as a
/// `safetensors::tensor::Metadata`, and its `data_len`; `None` where it is refused.
pub uninterp spec fn data_end_of(header: Seq<u8>) -> Option<usize>;

/// Whether an archive holds its whole header.
pub open spec fn has_header(bytes: Seq<u8>) -> bool {
    bytes.len() >= 8 && 8 + header_len(bytes, 8) <= bytes.len()
}

/// The header: the bytes behind the first eight, as many as those say.
pub open spec fn header_of(bytes: Seq<u8>) -> Seq<u8> {
    bytes.subrange(8, 8 + header_len(bytes, 8))
}

/// Whether the length that the header tells, that of the data together with its
/// own, cannot be counted.
pub open spec fn length_overflows(bytes: Seq<u8>) -> bool {
    &&& has_header(bytes)
    &&& data_end_of(header_of(bytes)) is Some
    &&& data_end_of(header_of(bytes))->Some_0 + 8 + header_len(bytes, 8) > usize::MAX
}

/// The number of the first `count` bytes, the least byte first.
pub open spec fn header_len(bytes: Seq<u8>, count: int) -> int
    decreases count,
{
    if count <= 0 {
        0
    } else {
        bytes[0] + 256 * header_len(bytes.skip(1), count - 1)
    }
}

fn read_header_len(bytes: &[u8]) -> (result: u128)
    requires
        bytes@.len() >= 8,
    ensures
        result == header_len(bytes@, 8),
{
    proof {
        reveal_with_fuel(header_len, 9);
        let first = bytes@.skip(1);
        let second = first.skip(1);
        let third = second.skip(1);
        let fourth = third.skip(1);
        let fifth = fourth.skip(1);
        let sixth = fifth.skip(1);
        let seventh = sixth.skip(1);
        assert(first[0] == bytes@[1]);
        assert(second[0] == bytes@[2]);
        assert(third[0] == bytes@[3]);
        assert(fourth[0] == bytes@[4]);
        assert(fifth[0] == bytes@[5]);
        assert(sixth[0] == bytes@[6]);
        assert(seventh[0] == bytes@[7]);
    }
    let high: u128 = bytes[4] as u128 + 256 * (bytes[5] as u128 + 256 * (bytes[6] as u128 + 256
        * bytes[7] as u128));
    bytes[0] as u128 + 256 * (bytes[1] as u128 + 256 * (bytes[2] as u128 + 256 * (bytes[3] as u128
        + 256 * high)))
}

/// `serde_json::from_slice` into a `safetensors::tensor::Metadata`, and its
/// `data_len`: the end is `data_end_of` the header. The metadata is held to its
/// own rules, which no sum takes part in.
#[verifier::external_body]
fn read_data_end(header: &[u8]) -> (result: Result<usize, serde_json::Error>)
    ensures
        match result {
            Ok(end) => data_end_of(header@) == Some(end),
            Err(_) => data_end_of(header@) is None,
        },
{
    let metadata: safetensors::tensor::Metadata = serde_json::from_slice(header)?;
    Ok(metadata.data_len())
}

/// Whether the length that the header tells cannot be counted.
fn finds_length_overflow(bytes: &[u8]) -> (result: bool)
    ensures
        result == length_overflows(bytes@),
{
    let total: usize = bytes.len();
    if total < 8 {
        return false;
    }
    let stated: u128 = read_header_len(bytes);
    if stated > (total - 8) as u128 {
        return false;
    }
    let end: usize = 8 + stated as usize;
    match read_data_end(vstd::slice::slice_subrange(bytes, 8, end)) {
        Err(_) => false,
        Ok(data_end) => data_end > usize::MAX - end,
    }
}

/// `safetensors::SafeTensors::deserialize` and `iter`: the entries are those of
/// `archive_of`, each name once, in no order that is told. The length that the
/// header tells is summed without a check.
#[verifier::external_body]
fn read_archive(bytes: &[u8]) -> (result: Result<Vec<ArchiveEntry>, safetensors::SafeTensorError>)
    requires
        !length_overflows(bytes@),
    ensures
        match result {
            Ok(entries) => distinct(entries@) && archive_of(bytes@) == Some(entry_map(entries@)),
            Err(_) => archive_of(bytes@) is None,
        },
{
    let archive = safetensors::SafeTensors::deserialize(bytes)?;
    Ok(archive.iter().map(|(name, view)| ArchiveEntry {
        name: name.to_owned(),
        single: view.dtype() == safetensors::Dtype::F32,
        shape: view.shape().to_vec(),
        data: view.data().to_vec(),
    }).collect())
}

/// Why an entry is refused; `None` where it is not.
pub open spec fn entry_error(entry: EntryView) -> Option<WeightsError> {
    if !entry.single {
        Some(WeightsError::Dtype)
    } else {
        match count_of(entry.shape) {
            None => Some(WeightsError::ShapeOverflow),
            Some(count) => if count * 4 > usize::MAX {
                Some(WeightsError::ByteOverflow)
            } else if entry.data.len() != count * 4 {
                Some(WeightsError::ByteLength)
            } else {
                None
            },
        }
    }
}

/// The tensor that an entry stands for.
pub open spec fn entry_tensor(entry: EntryView) -> TensorView<Single> {
    TensorView { shape: entry.shape, data: DataView::F32(decoded(entry.data)) }
}

/// The tensors of a model.
pub struct Weights {
    names: Vec<Vec<char>>,
    tensors: Vec<Tensor<Single>>,
}

impl Weights {
    /// The tensors by name.
    pub closed spec fn contents(self) -> Map<Seq<char>, TensorView<Single>> {
        named(self.names@, self.tensors@, self.names@.len() as int)
    }

    /// Whether there is a tensor for every name, of as many values as its shape says.
    pub closed spec fn wf(self) -> bool {
        &&& self.names@.len() == self.tensors@.len()
        &&& forall|i: int| 0 <= i < self.tensors@.len() ==> (#[trigger] self.tensors@[i])@.wf()
    }
}

/// The first `count` tensors by name; a later one takes the place of an earlier.
spec fn named(names: Seq<Vec<char>>, tensors: Seq<Tensor<Single>>, count: int) -> Map<
    Seq<char>,
    TensorView<Single>,
>
    decreases count,
{
    if count <= 0 {
        Map::empty()
    } else {
        named(names, tensors, count - 1).insert(names[count - 1]@, tensors[count - 1]@)
    }
}

/// The tensors of the first `count` entries by name.
pub open spec fn tensor_map(entries: Seq<ArchiveEntry>) -> Map<Seq<char>, TensorView<Single>>
    decreases entries.len(),
{
    if entries.len() == 0 {
        Map::empty()
    } else {
        tensor_map(entries.drop_last()).insert(
            entries.last().name@,
            entry_tensor(entry_view(entries.last())),
        )
    }
}

proof fn lemma_tensor_map(entries: Seq<ArchiveEntry>)
    ensures
        tensor_map(entries).dom() == entry_map(entries).dom(),
        forall|name: Seq<char>| #[trigger]
            entry_map(entries).dom().contains(name) ==> tensor_map(entries)[name] == entry_tensor(
                entry_map(entries)[name],
            ),
    decreases entries.len(),
{
    if entries.len() > 0 {
        lemma_tensor_map(entries.drop_last());
        assert(tensor_map(entries).dom() =~= entry_map(entries).dom());
    } else {
        assert(tensor_map(entries).dom() =~= entry_map(entries).dom());
    }
}

proof fn lemma_entry_map(entries: Seq<ArchiveEntry>)
    requires
        distinct(entries),
    ensures
        forall|i: int|
            0 <= i < entries.len() ==> entry_map(entries).dom().contains(
                (#[trigger] entries[i]).name@,
            ) && entry_map(entries)[entries[i].name@] == entry_view(entries[i]),
        forall|name: Seq<char>| #[trigger]
            entry_map(entries).dom().contains(name) ==> exists|i: int|
                0 <= i < entries.len() && (#[trigger] entries[i]).name@ == name,
    decreases entries.len(),
{
    if entries.len() > 0 {
        let head = entries.drop_last();
        assert forall|i: int, j: int| 0 <= i < j < head.len() implies (
        #[trigger] head[i]).name@ != (#[trigger] head[j]).name@ by {
            assert(entries[i].name@ != entries[j].name@);
        }
        lemma_entry_map(head);
        let last = entries.len() - 1;
        assert forall|i: int| 0 <= i < entries.len() implies entry_map(entries).dom().contains(
            (#[trigger] entries[i]).name@,
        ) && entry_map(entries)[entries[i].name@] == entry_view(entries[i]) by {
            if i < last {
                assert(head[i] == entries[i]);
                assert(entries[i].name@ != entries[last].name@);
            }
        }
        assert forall|name: Seq<char>| #[trigger]
            entry_map(entries).dom().contains(name) implies exists|i: int|
            0 <= i < entries.len() && (#[trigger] entries[i]).name@ == name by {
            if name == entries[last].name@ {
            } else {
                assert(entry_map(head).dom().contains(name));
                let i = choose|i: int| 0 <= i < head.len() && (#[trigger] head[i]).name@ == name;
                assert(entries[i].name@ == name);
            }
        }
    }
}

/// Turns an entry of an archive into a tensor.
fn decode_entry(entry: &ArchiveEntry) -> (result: Result<Tensor<Single>, WeightsError>)
    ensures
        match result {
            Ok(tensor) => {
                &&& entry_error(entry_view(*entry)) is None
                &&& tensor@ == entry_tensor(entry_view(*entry))
                &&& tensor@.wf()
            },
            Err(error) => entry_error(entry_view(*entry)) == Some(error),
        },
{
    if !entry.single {
        return Err(WeightsError::Dtype);
    }
    let count: usize = match element_count(entry.shape.as_slice()) {
        None => {
            return Err(WeightsError::ShapeOverflow);
        },
        Some(count) => count,
    };
    if count > usize::MAX / 4 {
        return Err(WeightsError::ByteOverflow);
    }
    if entry.data.len() != count * 4 {
        return Err(WeightsError::ByteLength);
    }
    match read_all_f32(entry.data.as_slice()) {
        Ok(values) => {
            assert(values@.len() == count);
            Ok(Tensor::new_f32(vstd::slice::slice_to_vec(entry.shape.as_slice()), values))
        },
        Err(_) => Err(WeightsError::ByteLength),
    }
}

/// Turns the entries of an archive into tensors; the first entry that is
/// refused gives the error.
pub fn load_entries(entries: &Vec<ArchiveEntry>) -> (result: Result<Weights, WeightsError>)
    ensures
        match result {
            Ok(weights) => {
                &&& weights.wf()
                &&& weights.contents() == tensor_map(entries@)
                &&& forall|i: int|
                    0 <= i < entries@.len() ==> entry_error(
                        entry_view(#[trigger] entries@[i]),
                    ) is None
            },
            Err(error) => exists|i: int|
                0 <= i < entries@.len() && entry_error(entry_view(#[trigger] entries@[i])) == Some(
                    error,
                ) && forall|j: int|
                    0 <= j < i ==> entry_error(entry_view(#[trigger] entries@[j])) is None,
        },
{
    let mut names: Vec<Vec<char>> = Vec::new();
    let mut tensors: Vec<Tensor<Single>> = Vec::new();
    assert(entries@.take(0) =~= Seq::<ArchiveEntry>::empty());
    for index in 0..entries.len()
        invariant
            names@.len() == index,
            tensors@.len() == index,
            named(names@, tensors@, index as int) == tensor_map(entries@.take(index as int)),
            forall|i: int| 0 <= i < tensors@.len() ==> (#[trigger] tensors@[i])@.wf(),
            forall|i: int|
                0 <= i < index ==> entry_error(entry_view(#[trigger] entries@[i])) is None,
    {
        let tensor: Tensor<Single> = match decode_entry(&entries[index]) {
            Ok(tensor) => tensor,
            Err(error) => {
                assert(entry_error(entry_view(entries@[index as int])) == Some(error));
                return Err(error);
            },
        };
        let ghost old_names = names@;
        let ghost old_tensors = tensors@;
        names.push(chars_of(entries[index].name.as_str()));
        tensors.push(tensor);
        proof {
            lemma_named_push(
                old_names,
                old_tensors,
                names@[index as int],
                tensors@[index as int],
                index as int,
            );
            assert(entries@.take(index + 1).drop_last() =~= entries@.take(index as int));
            assert(names@ =~= old_names.push(names@[index as int]));
            assert(tensors@ =~= old_tensors.push(tensors@[index as int]));
        }
    }
    assert(entries@.take(entries@.len() as int) =~= entries@);
    Ok(Weights { names, tensors })
}

proof fn lemma_named_push(
    names: Seq<Vec<char>>,
    tensors: Seq<Tensor<Single>>,
    name: Vec<char>,
    tensor: Tensor<Single>,
    count: int,
)
    requires
        0 <= count <= names.len(),
        count <= tensors.len(),
    ensures
        named(names.push(name), tensors.push(tensor), count) == named(names, tensors, count),
    decreases count,
{
    if count > 0 {
        lemma_named_push(names, tensors, name, tensor, count - 1);
    }
}

/// Whether the tensors of an archive are loaded: all entries under their names.
pub open spec fn is_loaded(
    archive: Map<Seq<char>, EntryView>,
    contents: Map<Seq<char>, TensorView<Single>>,
) -> bool {
    &&& contents.dom() == archive.dom()
    &&& forall|name: Seq<char>| #[trigger]
        archive.dom().contains(name) ==> entry_error(archive[name]) is None && contents[name]
            == entry_tensor(archive[name])
}

impl Weights {
    /// Loads the tensors of an archive. Where several entries are refused, any
    /// of their errors can come.
    pub fn load(bytes: &[u8]) -> (result: Result<Weights, WeightsError>)
        ensures
            reads_archive(bytes@, result),
            result matches Ok(weights) ==> weights.wf(),
    {
        if finds_length_overflow(bytes) {
            return Err(WeightsError::LengthOverflow);
        }
        match read_archive(bytes) {
            Err(_) => Err(WeightsError::Decode),
            Ok(entries) => {
                let ghost archive = entry_map(entries@);
                proof {
                    lemma_entry_map(entries@);
                    lemma_tensor_map(entries@);
                }
                match load_entries(&entries) {
                    Ok(weights) => {
                        proof {
                            assert forall|name: Seq<char>| #[trigger]
                                archive.dom().contains(name) implies entry_error(
                                archive[name],
                            ) is None by {
                                let i = choose|i: int|
                                    0 <= i < entries@.len() && (#[trigger] entries@[i]).name@
                                        == name;
                                assert(entry_error(entry_view(entries@[i])) is None);
                            }
                            assert(is_loaded(archive, weights.contents()));
                        }
                        Ok(weights)
                    },
                    Err(error) => {
                        proof {
                            let i = choose|i: int|
                                0 <= i < entries@.len() && entry_error(
                                    entry_view(#[trigger] entries@[i]),
                                ) == Some(error) && forall|j: int|
                                    0 <= j < i ==> entry_error(
                                        entry_view(#[trigger] entries@[j]),
                                    ) is None;
                            assert(archive.dom().contains(entries@[i].name@));
                            assert(archive[entries@[i].name@] == entry_view(entries@[i]));
                            let name = entries@[i].name@;
                            assert(archive_of(bytes@)->Some_0.dom().contains(name) && entry_error(
                                archive_of(bytes@)->Some_0[name],
                            ) == Some(error));
                            assert(error != WeightsError::LengthOverflow && error
                                != WeightsError::Decode);
                        }
                        Err(error)
                    },
                }
            },
        }
    }

    /// A builder for the tensors whose names have no prefix.
    pub fn builder(&self) -> (result: VarBuilder<'_>)
        ensures
            result.weights == self,
            result.prefix@ == Seq::<char>::empty(),
    {
        VarBuilder { weights: self, prefix: String::new() }
    }
}

/// Whether weights are what the bytes of an archive hold, or the reason why there
/// are none.
pub open spec fn reads_archive(bytes: Seq<u8>, result: Result<Weights, WeightsError>) -> bool {
    match result {
        Ok(weights) => {
            &&& !length_overflows(bytes)
            &&& archive_of(bytes) is Some
            &&& is_loaded(archive_of(bytes)->Some_0, weights.contents())
        },
        Err(WeightsError::LengthOverflow) => length_overflows(bytes),
        Err(WeightsError::Decode) => !length_overflows(bytes) && archive_of(bytes) is None,
        Err(error) => {
            &&& !length_overflows(bytes)
            &&& archive_of(bytes) is Some
            &&& exists|name: Seq<char>|
                archive_of(bytes)->Some_0.dom().contains(name) && entry_error(
                    #[trigger] archive_of(bytes)->Some_0[name],
                ) == Some(error)
        },
    }
}

/// Looks up tensors below a prefix.
pub struct VarBuilder<'a> {
    pub weights: &'a Weights,
    pub prefix: String,
}

/// A name below a prefix.
pub open spec fn full_name(prefix: Seq<char>, name: Seq<char>) -> Seq<char> {
    if prefix.len() == 0 {
        name
    } else {
        prefix.push('.') + name
    }
}

fn join_names(prefix: &str, name: &str) -> (result: Vec<char>)
    ensures
        result@ == full_name(prefix@, name@),
{
    let mut joined: Vec<char> = chars_of(prefix);
    let characters: Vec<char> = chars_of(name);
    if joined.len() == 0 {
        return characters;
    }
    joined.push('.');
    let ghost lead = joined@;
    assert(lead + characters@.take(0) =~= lead);
    for index in 0..characters.len()
        invariant
            joined@ == lead + characters@.take(index as int),
    {
        joined.push(characters[index]);
        assert(joined@ =~= lead + characters@.take(index + 1));
    }
    assert(characters@.take(characters@.len() as int) =~= characters@);
    joined
}

impl<'a> VarBuilder<'a> {
    /// A builder for the tensors below a further part of the prefix.
    pub fn pp(&self, part: &str) -> (result: VarBuilder<'a>)
        ensures
            result.weights == self.weights,
            result.prefix@ == full_name(self.prefix@, part@),
    {
        VarBuilder {
            weights: self.weights,
            prefix: string_of(join_names(self.prefix.as_str(), part).as_slice()),
        }
    }

    /// A builder for the tensors below an index, which is written in decimal.
    pub fn pp_index(&self, index: usize) -> (result: VarBuilder<'a>)
        ensures
            result.weights == self.weights,
            result.prefix@ == full_name(self.prefix@, decimal(index as nat)),
    {
        self.pp(string_of(write_decimal(index).as_slice()).as_str())
    }

    /// The tensor of a name, which must have the expected shape.
    pub fn get<S: IntoShape>(&self, shape: S, name: &str) -> (result: Result<
        Tensor<Single>,
        WeightsError,
    >)
        requires
            self.weights.wf(),
        ensures
            ({
                let contents = self.weights.contents();
                let full = full_name(self.prefix@, name@);
                match result {
                    Ok(tensor) => {
                        &&& contents.dom().contains(full)
                        &&& contents[full].shape == shape.dimensions()
                        &&& tensor@ == contents[full]
                        &&& tensor@.wf()
                    },
                    Err(WeightsError::Missing) => !contents.dom().contains(full),
                    Err(error) => {
                        &&& error == WeightsError::Shape
                        &&& contents.dom().contains(full)
                        &&& contents[full].shape != shape.dimensions()
                    },
                }
            }),
    {
        let wanted: Vec<usize> = shape.into_shape();
        let full: Vec<char> = join_names(self.prefix.as_str(), name);
        let names: &Vec<Vec<char>> = &self.weights.names;
        let tensors: &Vec<Tensor<Single>> = &self.weights.tensors;
        let mut place: usize = names.len();
        let ghost total: int = names@.len() as int;
        while place > 0
            invariant
                *names == self.weights.names,
                *tensors == self.weights.tensors,
                self.weights.wf(),
                total == names@.len(),
                place <= total,
                wanted@ == shape.dimensions(),
                full@ == full_name(self.prefix@, name@),
                named(names@, tensors@, total).dom().contains(full@) == named(
                    names@,
                    tensors@,
                    place as int,
                ).dom().contains(full@),
                named(names@, tensors@, place as int).dom().contains(full@) ==> named(
                    names@,
                    tensors@,
                    total,
                )[full@] == named(names@, tensors@, place as int)[full@],
            decreases place,
        {
            place = place - 1;
            if same_text(names[place].as_slice(), full.as_slice()) {
                let tensor: &Tensor<Single> = &tensors[place];
                return if crate::broadcast::same_shape(tensor.shape(), wanted.as_slice()) {
                    Ok(tensor.duplicate())
                } else {
                    Err(WeightsError::Shape)
                };
            }
        }
        Err(WeightsError::Missing)
    }
}

} // verus!
