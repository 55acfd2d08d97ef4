//! How the layers of the networks are made of stored weights.
use vstd::prelude::*;
use crate::conv_layer::{bias_view, geometry_of, layer_error, packs_nothing, Conv2d};
use crate::conv_plan::{plan_of, Platform};
use crate::conv_transpose_layer::{transpose_layer_error, ConvTranspose2d};
use crate::folding::{
    bias_or_zeros, fold_batch_norm, fold_error, fold_row, fuse_error, fuse_intraclass_conv,
    is_folded, is_fused_bias, is_fused_cell, Norm,
};
use crate::functions::{reshaped, Activation};
use crate::linear::{linear_error, norm_error, LayerNorm, Linear};
use crate::network::{Module, RecAttention};
use crate::rank_one::{factor_rank_one_conv_weight, factors_seen, takes_apart, FactorError};
use crate::single::Single;
use crate::tensor::{DataView, Tensor, TensorError, TensorView};
use crate::text::decimal;
use crate::weights::{full_name, VarBuilder, Weights, WeightsError};

verus! {

/// Why a network could not be loaded.
#[derive(Clone, Copy, Debug, PartialEq, Eq, Structural)]
pub enum LoadError {
    /// A stored tensor is missing or has another shape.
    Weights(WeightsError),
    /// A layer refused its weights.
    Tensor(TensorError),
    /// A dense kernel could not be taken apart.
    Factor(FactorError),
}

/// A module or why there is none.
pub type Loaded = Result<Module, LoadError>;

/// Where weights are looked up: the stored tensors and a prefix of names.
pub struct Place {
    pub contents: Map<Seq<char>, TensorView<Single>>,
    pub prefix: Seq<char>,
}

impl Place {
    /// The place below a part of a name.
    pub open spec fn at(self, part: &str) -> Place {
        Place { contents: self.contents, prefix: full_name(self.prefix, part@) }
    }

    /// The place below an index, which is written in decimal.
    pub open spec fn at_index(self, index: int) -> Place {
        Place { contents: self.contents, prefix: full_name(self.prefix, decimal(index as nat)) }
    }

    /// The stored tensor of a name, which must have the given shape.
    pub open spec fn found(self, name: &str, shape: Seq<usize>) -> Result<
        TensorView<Single>,
        LoadError,
    > {
        let full = full_name(self.prefix, name@);
        if !self.contents.dom().contains(full) {
            Err(LoadError::Weights(WeightsError::Missing))
        } else if self.contents[full].shape != shape {
            Err(LoadError::Weights(WeightsError::Shape))
        } else {
            Ok(self.contents[full])
        }
    }

    /// The values of a stored vector.
    pub open spec fn values(self, name: &str, count: usize) -> Result<Seq<Single>, LoadError> {
        match self.found(name, seq![count]) {
            Err(error) => Err(error),
            Ok(tensor) => match tensor.data {
                DataView::F32(values) => Ok(values),
                DataView::I64(_) => Err(LoadError::Tensor(TensorError::ExpectedF32)),
            },
        }
    }
}

/// The place of a builder.
pub open spec fn place_of(builder: VarBuilder) -> Place {
    Place { contents: builder.weights.contents(), prefix: builder.prefix@ }
}

/// A convolution: its sizes and whether it has a bias.
#[derive(Clone, Copy)]
pub struct ConvSpec {
    pub in_channels: usize,
    pub out_channels: usize,
    pub kernel: [usize; 2],
    pub stride: [usize; 2],
    pub pads: [usize; 4],
    pub bias: bool,
    pub groups: usize,
}

impl ConvSpec {
    /// The shape of the weights.
    pub open spec fn weight_shape(self) -> Seq<usize> {
        seq![
            self.out_channels,
            (self.in_channels as int / self.groups as int) as usize,
            self.kernel@[0],
            self.kernel@[1],
        ]
    }
}

/// A convolution of single cells.
pub open spec fn pointwise_spec(in_channels: usize, out_channels: usize, bias: bool) -> ConvSpec {
    ConvSpec {
        in_channels,
        out_channels,
        kernel: [1, 1],
        stride: [1, 1],
        pads: [0, 0, 0, 0],
        bias,
        groups: 1,
    }
}

/// A convolution of single cells.
pub fn pointwise(in_channels: usize, out_channels: usize, bias: bool) -> (result: ConvSpec)
    ensures
        result == pointwise_spec(in_channels, out_channels, bias),
{
    ConvSpec {
        in_channels,
        out_channels,
        kernel: [1, 1],
        stride: [1, 1],
        pads: [0, 0, 0, 0],
        bias,
        groups: 1,
    }
}

/// A convolution with a square kernel and the same padding on all sides.
pub open spec fn square_spec(
    in_channels: usize,
    out_channels: usize,
    kernel: usize,
    stride: [usize; 2],
    bias: bool,
    groups: usize,
) -> ConvSpec {
    let padding = kernel / 2;
    ConvSpec {
        in_channels,
        out_channels,
        kernel: [kernel, kernel],
        stride,
        pads: [padding, padding, padding, padding],
        bias,
        groups,
    }
}

/// A convolution with a square kernel and the same padding on all sides.
pub fn square(
    in_channels: usize,
    out_channels: usize,
    kernel: usize,
    stride: [usize; 2],
    bias: bool,
    groups: usize,
) -> (result: ConvSpec)
    ensures
        result == square_spec(in_channels, out_channels, kernel, stride, bias, groups),
{
    let padding: usize = kernel / 2;
    ConvSpec {
        in_channels,
        out_channels,
        kernel: [kernel, kernel],
        stride,
        pads: [padding, padding, padding, padding],
        bias,
        groups,
    }
}

/// A convolution with a square kernel that keeps the size of planes.
pub open spec fn same_spec(
    in_channels: usize,
    out_channels: usize,
    kernel: usize,
    bias: bool,
    groups: usize,
) -> ConvSpec {
    square_spec(in_channels, out_channels, kernel, [1, 1], bias, groups)
}

/// The shape of the weights of a transposed convolution that doubles both sides.
pub open spec fn doubling_shape(in_channels: usize, out_channels: usize) -> Seq<usize> {
    seq![in_channels, out_channels, 2, 2]
}

/// The shape of the weights of a convolution along a line.
pub open spec fn line_shape(channels: usize, group_channels: usize, kernel: usize) -> Seq<usize> {
    seq![channels, group_channels, kernel]
}

/// A convolution along a line.
pub open spec fn line_spec(channels: usize, kernel: usize, groups: usize) -> ConvSpec {
    let padding = kernel / 2;
    ConvSpec {
        in_channels: channels,
        out_channels: channels,
        kernel: [1, kernel],
        stride: [1, 1],
        pads: [0, padding, 0, padding],
        bias: false,
        groups,
    }
}

fn fetch<const K: usize>(builder: &VarBuilder, shape: [usize; K], name: &str) -> (result: Result<
    Tensor<Single>,
    LoadError,
>)
    requires
        builder.weights.wf(),
    ensures
        match result {
            Ok(tensor) => place_of(*builder).found(name, shape@) == Ok::<
                TensorView<Single>,
                LoadError,
            >(tensor@) && tensor@.wf(),
            Err(error) => place_of(*builder).found(name, shape@) == Err::<
                TensorView<Single>,
                LoadError,
            >(error),
        },
{
    match builder.get(shape, name) {
        Ok(tensor) => Ok(tensor),
        Err(error) => Err(LoadError::Weights(error)),
    }
}

fn fetch_values(builder: &VarBuilder, count: usize, name: &str) -> (result: Result<
    Vec<Single>,
    LoadError,
>)
    requires
        builder.weights.wf(),
    ensures
        match result {
            Ok(values) => place_of(*builder).values(name, count) == Ok::<Seq<Single>, LoadError>(
                values@,
            ) && values@.len() == count,
            Err(error) => place_of(*builder).values(name, count) == Err::<Seq<Single>, LoadError>(
                error,
            ),
        },
{
    let shape: [usize; 1] = [count];
    assert(shape@ =~= seq![count]);
    match fetch(builder, shape, name) {
        Err(error) => Err(error),
        Ok(tensor) => match tensor.into_f32() {
            Err(error) => Err(LoadError::Tensor(error)),
            Ok(values) => {
                proof {
                    crate::layout::lemma_wf_count(tensor@);
                    assert(tensor@.shape =~= seq![count]);
                    reveal_with_fuel(crate::shape::product, 3);
                    assert(tensor@.shape.drop_last() =~= Seq::<usize>::empty());
                }
                Ok(values)
            },
        },
    }
}

/// A normalisation with the stored values.
pub open spec fn is_norm(
    place: Place,
    channels: usize,
    norm: Result<Norm<Single>, LoadError>,
) -> bool {
    let gamma = place.values("weight", channels);
    let beta = place.values("bias", channels);
    let mean = place.values("running_mean", channels);
    let variance = place.values("running_var", channels);
    match norm {
        Ok(parts) => {
            &&& gamma == Ok::<Seq<Single>, LoadError>(parts.gamma@)
            &&& beta == Ok::<Seq<Single>, LoadError>(parts.beta@)
            &&& mean == Ok::<Seq<Single>, LoadError>(parts.mean@)
            &&& variance == Ok::<Seq<Single>, LoadError>(parts.variance@)
        },
        Err(error) => if gamma is Err {
            gamma == Err::<Seq<Single>, LoadError>(error)
        } else if beta is Err {
            beta == Err::<Seq<Single>, LoadError>(error)
        } else if mean is Err {
            mean == Err::<Seq<Single>, LoadError>(error)
        } else {
            variance == Err::<Seq<Single>, LoadError>(error)
        },
    }
}

fn load_norm(builder: &VarBuilder, channels: usize) -> (result: Result<Norm<Single>, LoadError>)
    requires
        builder.weights.wf(),
    ensures
        is_norm(place_of(*builder), channels, result),
        result matches Ok(norm) ==> norm.fits(channels as int),
{
    let gamma: Vec<Single> = match fetch_values(builder, channels, "weight") {
        Err(error) => {
            return Err(error);
        },
        Ok(values) => values,
    };
    let beta: Vec<Single> = match fetch_values(builder, channels, "bias") {
        Err(error) => {
            return Err(error);
        },
        Ok(values) => values,
    };
    let mean: Vec<Single> = match fetch_values(builder, channels, "running_mean") {
        Err(error) => {
            return Err(error);
        },
        Ok(values) => values,
    };
    let variance: Vec<Single> = match fetch_values(builder, channels, "running_var") {
        Err(error) => {
            return Err(error);
        },
        Ok(values) => values,
    };
    Ok(Norm { gamma, beta, mean, variance })
}

/// The modules in order, or the first refusal.
pub open spec fn gathers(parts: Seq<Loaded>, result: Result<Seq<Module>, LoadError>) -> bool {
    match result {
        Ok(list) => list.len() == parts.len() && forall|i: int|
            0 <= i < list.len() ==> parts[i] == Ok::<Module, LoadError>(#[trigger] list[i]),
        Err(error) => exists|i: int|
            {
                &&& 0 <= i < parts.len()
                &&& #[trigger] parts[i] == Err::<Module, LoadError>(error)
                &&& forall|j: int| 0 <= j < i ==> (#[trigger] parts[j]) is Ok
            },
    }
}

/// All modules were loaded.
pub open spec fn succeeds(parts: Seq<Loaded>) -> bool {
    forall|i: int| 0 <= i < parts.len() ==> (#[trigger] parts[i]) is Ok
}

/// What is seen of a list of modules.
pub open spec fn modules_seen(list: Result<Vec<Module>, LoadError>) -> Result<
    Seq<Module>,
    LoadError,
> {
    match list {
        Ok(modules) => Ok(modules@),
        Err(error) => Err(error),
    }
}

/// A module that was loaded is well formed.
pub open spec fn loaded_wf(loaded: Loaded) -> bool {
    loaded matches Ok(module) ==> module.wf()
}

/// All modules that were loaded are well formed.
pub open spec fn all_loaded_wf(parts: Seq<Loaded>) -> bool {
    forall|i: int| 0 <= i < parts.len() ==> loaded_wf(#[trigger] parts[i])
}

/// One module behind the other, or the first refusal.
pub open spec fn chains(parts: Seq<Loaded>, result: Loaded) -> bool {
    match result {
        Ok(Module::Chain(list)) => gathers(parts, Ok(list@)),
        Err(error) => gathers(parts, Err(error)),
        _ => false,
    }
}

/// The sum of the input and what a module gives, or the refusal of the module.
pub open spec fn sums(inner: Loaded, result: Loaded) -> bool {
    match (inner, result) {
        (Ok(module), Ok(Module::Sum(held))) => *held == module,
        (Err(error), Err(refusal)) => refusal == error,
        _ => false,
    }
}

/// The product of the input and what a module gives, or the refusal of the
/// module.
pub open spec fn products(inner: Loaded, result: Loaded) -> bool {
    match (inner, result) {
        (Ok(module), Ok(Module::Product(held))) => *held == module,
        (Err(error), Err(refusal)) => refusal == error,
        _ => false,
    }
}

/// The input with its product with what a module gives added, or the refusal of
/// the module.
pub open spec fn gated(inner: Loaded, result: Loaded) -> bool {
    match (inner, result) {
        (Ok(module), Ok(Module::Gate(held))) => *held == module,
        (Err(error), Err(refusal)) => refusal == error,
        _ => false,
    }
}

/// Gathers modules.
pub fn gather(parts: Vec<Loaded>) -> (result: Result<Vec<Module>, LoadError>)
    requires
        all_loaded_wf(parts@),
    ensures
        gathers(parts@, modules_seen(result)),
        result matches Ok(list) ==> succeeds(parts@) && crate::network::modules_wf(list@),
{
    let ghost given = parts@;
    let count: usize = parts.len();
    let mut rest: Vec<Loaded> = parts;
    let mut list: Vec<Module> = Vec::new();
    for index in 0..count
        invariant
            given == parts@,
            all_loaded_wf(given),
            count == given.len(),
            rest@ == given.skip(index as int),
            list@.len() == index,
            forall|i: int|
                0 <= i < index ==> given[i] == Ok::<Module, LoadError>(#[trigger] list@[i]),
    {
        assert(rest@[0] == given[index as int]);
        let first: Loaded = rest.remove(0);
        assert(rest@ =~= given.skip(index + 1));
        match first {
            Err(error) => {
                assert(given[index as int] == Err::<Module, LoadError>(error));
                assert forall|j: int| 0 <= j < index implies (#[trigger] given[j]) is Ok by {
                    assert(given[j] == Ok::<Module, LoadError>(list@[j]));
                }
                return Err(error);
            },
            Ok(module) => {
                list.push(module);
            },
        }
    }
    proof {
        assert forall|i: int| 0 <= i < list@.len() implies (#[trigger] list@[i]).wf() by {
            assert(loaded_wf(given[i]));
        }
        assert forall|i: int| 0 <= i < given.len() implies (#[trigger] given[i]) is Ok by {
            assert(given[i] == Ok::<Module, LoadError>(list@[i]));
        }
    }
    Ok(list)
}

/// Puts modules one behind the other.
pub fn chain(parts: Vec<Loaded>) -> (result: Loaded)
    requires
        all_loaded_wf(parts@),
    ensures
        chains(parts@, result),
        loaded_wf(result),
{
    match gather(parts) {
        Ok(list) => Ok(Module::Chain(list)),
        Err(error) => Err(error),
    }
}

/// The sum of the input and what a module gives.
pub fn sum(inner: Loaded) -> (result: Loaded)
    requires
        loaded_wf(inner),
    ensures
        sums(inner, result),
        loaded_wf(result),
{
    match inner {
        Ok(module) => Ok(Module::Sum(Box::new(module))),
        Err(error) => Err(error),
    }
}

/// The product of the input and what a module gives.
pub fn product(inner: Loaded) -> (result: Loaded)
    requires
        loaded_wf(inner),
    ensures
        products(inner, result),
        loaded_wf(result),
{
    match inner {
        Ok(module) => Ok(Module::Product(Box::new(module))),
        Err(error) => Err(error),
    }
}

/// The input with its product with what a module gives added.
pub fn gate(inner: Loaded) -> (result: Loaded)
    requires
        loaded_wf(inner),
    ensures
        gated(inner, result),
        loaded_wf(result),
{
    match inner {
        Ok(module) => Ok(Module::Gate(Box::new(module))),
        Err(error) => Err(error),
    }
}

/// The functions on values with which weights are prepared, and what the
/// machine offers.
pub struct Loader<B, S, Q, C, A> {
    pub zero: Single,
    /// The factor of a channel from its scale and its variance.
    pub factor_of: B,
    pub product: B,
    pub addition: B,
    /// The new bias from the old one, the mean, the factor and the offset.
    pub shift: S,
    pub finite: Q,
    /// Takes the kernels of an input channel, of so many cells each, apart.
    pub factor: C,
    /// Whether factors give the kernels back.
    pub accept: A,
    /// What layer normalisation adds to the variance.
    pub epsilon: Single,
    pub platform: Platform,
}

/// The weights and the bias of a layer, or why there are none.
pub type Pair = Result<(TensorView<Single>, TensorView<Single>), LoadError>;

/// The weights and the bias that a place holds; none where it has no bias.
pub open spec fn stored_pair(place: Place, shape: Seq<usize>, count: usize, bias: bool) -> Result<
    (TensorView<Single>, Option<TensorView<Single>>),
    LoadError,
> {
    match place.found("weight", shape) {
        Err(error) => Err(error),
        Ok(weight) => if bias {
            match place.found("bias", seq![count]) {
                Err(error) => Err(error),
                Ok(tensor) => Ok((weight, Some(tensor))),
            }
        } else {
            Ok((weight, None))
        },
    }
}

/// What is seen of weights and a bias.
pub open spec fn both_seen(pair: Result<(Tensor<Single>, Tensor<Single>), LoadError>) -> Pair {
    match pair {
        Err(error) => Err(error),
        Ok((weight, bias)) => Ok((weight@, bias@)),
    }
}

/// What is seen of weights and a bias that may be missing.
pub open spec fn pair_seen(
    pair: Result<(Tensor<Single>, Option<Tensor<Single>>), LoadError>,
) -> Result<
    (TensorView<Single>, Option<TensorView<Single>>),
    LoadError,
> {
    match pair {
        Err(error) => Err(error),
        Ok((weight, bias)) => Ok((weight@, bias_view(bias))),
    }
}

fn fetch_pair<const K: usize>(
    builder: &VarBuilder,
    shape: [usize; K],
    count: usize,
    bias: bool,
) -> (result: Result<(Tensor<Single>, Option<Tensor<Single>>), LoadError>)
    requires
        builder.weights.wf(),
    ensures
        pair_seen(result) == stored_pair(place_of(*builder), shape@, count, bias),
        result matches Ok((weight, tensor)) ==> weight@.wf() && (tensor matches Some(values)
            ==> values@.wf()),
{
    let weight: Tensor<Single> = match fetch(builder, shape, "weight") {
        Err(error) => {
            return Err(error);
        },
        Ok(tensor) => tensor,
    };
    if bias {
        let vector: [usize; 1] = [count];
        assert(vector@ =~= seq![count]);
        match fetch(builder, vector, "bias") {
            Err(error) => Err(error),
            Ok(tensor) => Ok((weight, Some(tensor))),
        }
    } else {
        Ok((weight, None))
    }
}

impl<
    B: Fn(Single, Single) -> Single,
    S: Fn(Single, Single, Single, Single) -> Single,
    Q: Fn(Single) -> bool,
    C: Fn(Vec<Single>, usize) -> Option<(Vec<Single>, Vec<Single>)>,
    A: Fn(Vec<Single>, Vec<Single>, Vec<Single>, usize) -> bool,
> Loader<B, S, Q, C, A> {
    /// The functions take all values.
    pub open spec fn valid(&self) -> bool {
        &&& forall|a: Single, b: Single| #[trigger] call_requires(self.factor_of, (a, b))
        &&& forall|a: Single, b: Single| #[trigger] call_requires(self.product, (a, b))
        &&& forall|a: Single, b: Single| #[trigger] call_requires(self.addition, (a, b))
        &&& forall|a: Single, b: Single, c: Single, d: Single| #[trigger]
            call_requires(self.shift, (a, b, c, d))
        &&& forall|a: Single| #[trigger] call_requires(self.finite, (a,))
        &&& forall|a: Vec<Single>, cells: usize| #[trigger] call_requires(self.factor, (a, cells))
        &&& forall|a: Vec<Single>, b: Vec<Single>, c: Vec<Single>, cells: usize| #[trigger]
            call_requires(self.accept, (a, b, c, cells))
    }

    /// The convolution that weights and a bias may be made into.
    pub open spec fn is_convolution(
        &self,
        weight: TensorView<Single>,
        bias: Option<TensorView<Single>>,
        spec: ConvSpec,
        activation: Activation,
        result: Loaded,
    ) -> bool {
        let refusal = layer_error(weight, bias, spec.stride@, spec.groups);
        let geometry = geometry_of(weight.shape, spec.stride, spec.pads, spec.groups);
        match result {
            Ok(Module::Convolution(layer, behind)) => {
                &&& behind == activation
                &&& refusal is None
                &&& !packs_nothing(geometry, false, self.platform)
                &&& layer.wf()
                &&& layer.weight@ == weight
                &&& bias_view(layer.bias) == bias
                &&& layer.geometry == geometry
                &&& layer.shape() == weight.shape
                &&& layer.plan == plan_of(geometry, false, self.platform)
            },
            Err(LoadError::Tensor(error)) => {
                ||| refusal == Some(error)
                ||| refusal is None && packs_nothing(geometry, false, self.platform) && error
                    == TensorError::Pack
            },
            _ => false,
        }
    }

    fn make_convolution(
        &self,
        weight: Tensor<Single>,
        bias: Option<Tensor<Single>>,
        spec: &ConvSpec,
        activation: Activation,
    ) -> (result: Loaded)
        requires
            weight@.wf(),
            bias matches Some(tensor) ==> tensor@.wf(),
        ensures
            self.is_convolution(weight@, bias_view(bias), *spec, activation, result),
            result matches Ok(module) ==> module.wf(),
    {
        match Conv2d::new(
            weight,
            bias,
            spec.stride,
            spec.pads,
            spec.groups,
            false,
            self.platform,
        ) {
            Ok(layer) => Ok(Module::Convolution(layer, activation)),
            Err(error) => Err(LoadError::Tensor(error)),
        }
    }

    /// The convolution that a place holds.
    pub open spec fn loads_conv(
        &self,
        place: Place,
        spec: ConvSpec,
        activation: Activation,
        result: Loaded,
    ) -> bool {
        match stored_pair(place, spec.weight_shape(), spec.out_channels, spec.bias) {
            Err(error) => result == Err::<Module, LoadError>(error),
            Ok((weight, bias)) => self.is_convolution(weight, bias, spec, activation, result),
        }
    }

    /// Loads a convolution.
    pub fn load_conv(
        &self,
        builder: &VarBuilder,
        spec: &ConvSpec,
        activation: Activation,
    ) -> (result: Loaded)
        requires
            builder.weights.wf(),
            spec.groups > 0,
        ensures
            self.loads_conv(place_of(*builder), *spec, activation, result),
            result matches Ok(module) ==> module.wf(),
    {
        let shape: [usize; 4] = [
            spec.out_channels,
            spec.in_channels / spec.groups,
            spec.kernel[0],
            spec.kernel[1],
        ];
        assert(shape@ =~= spec.weight_shape());
        match fetch_pair(builder, shape, spec.out_channels, spec.bias) {
            Err(error) => Err(error),
            Ok((weight, bias)) => self.make_convolution(weight, bias, spec, activation),
        }
    }

    /// The weights and the bias that a normalisation may be folded into.
    pub open spec fn folds(
        &self,
        weight: TensorView<Single>,
        bias: Option<TensorView<Single>>,
        norm: Norm<Single>,
        channels: usize,
        transposed: bool,
        result: Pair,
    ) -> bool {
        let refusal = fold_error(weight, bias, channels, transposed);
        match result {
            Ok((new_weight, new_bias)) => {
                &&& refusal is None
                &&& new_weight.wf() && new_bias.wf()
                &&& new_weight.shape == weight.shape
                &&& new_bias.shape == seq![channels]
                &&& new_weight.data is F32 && new_bias.data is F32
                &&& exists|scales: Seq<Single>| #[trigger]
                    is_folded(
                        self.factor_of,
                        self.product,
                        self.shift,
                        norm,
                        channels as int,
                        fold_row(weight.shape, transposed),
                        weight.data->F32_0,
                        bias_or_zeros(bias, self.zero, channels as int),
                        scales,
                        new_weight.data->F32_0,
                        new_bias.data->F32_0,
                    )
            },
            Err(error) => refusal is Some && error == LoadError::Tensor(refusal->Some_0),
        }
    }

    /// The weights and the bias of a layer with the normalisation of a place
    /// folded in.
    pub open spec fn folds_stored(
        &self,
        stored: Result<(TensorView<Single>, Option<TensorView<Single>>), LoadError>,
        place: Place,
        channels: usize,
        transposed: bool,
        result: Pair,
    ) -> bool {
        match stored {
            Err(error) => result == Err::<(TensorView<Single>, TensorView<Single>), LoadError>(
                error,
            ),
            Ok((weight, bias)) => exists|norm: Result<Norm<Single>, LoadError>| #[trigger]
                is_norm(place, channels, norm) && match norm {
                    Err(error) => result == Err::<
                        (TensorView<Single>, TensorView<Single>),
                        LoadError,
                    >(error),
                    Ok(parts) => self.folds(weight, bias, parts, channels, transposed, result),
                },
        }
    }

    fn fold_stored(
        &self,
        stored: Result<(Tensor<Single>, Option<Tensor<Single>>), LoadError>,
        builder: &VarBuilder,
        channels: usize,
        transposed: bool,
    ) -> (result: Result<(Tensor<Single>, Tensor<Single>), LoadError>)
        requires
            self.valid(),
            builder.weights.wf(),
            stored matches Ok((weight, tensor)) ==> weight@.wf() && (tensor matches Some(values)
                ==> values@.wf()),
        ensures
            self.folds_stored(
                pair_seen(stored),
                place_of(*builder),
                channels,
                transposed,
                both_seen(result),
            ),
            result matches Ok((weight, bias)) ==> weight@.wf() && bias@.wf(),
    {
        let (weight, bias): (Tensor<Single>, Option<Tensor<Single>>) = match stored {
            Err(error) => {
                return Err(error);
            },
            Ok(pair) => pair,
        };
        let norm: Result<Norm<Single>, LoadError> = load_norm(builder, channels);
        assert(is_norm(place_of(*builder), channels, norm));
        match norm {
            Err(error) => Err(error),
            Ok(parts) => {
                let given: Option<&Tensor<Single>> = match &bias {
                    Some(tensor) => Some(tensor),
                    None => None,
                };
                match fold_batch_norm(
                    &self.factor_of,
                    &self.product,
                    &self.shift,
                    self.zero,
                    &weight,
                    given,
                    &parts,
                    channels,
                    transposed,
                ) {
                    Ok(pair) => Ok(pair),
                    Err(error) => Err(LoadError::Tensor(error)),
                }
            },
        }
    }

    /// The convolution that a place holds, with its normalisation folded in.
    pub open spec fn loads_conv_bn(
        &self,
        place: Place,
        spec: ConvSpec,
        norm_name: &str,
        activation: Activation,
        result: Loaded,
    ) -> bool {
        exists|pair: Pair| #[trigger]
            self.folds_stored(
                stored_pair(
                    place.at("convolution"),
                    spec.weight_shape(),
                    spec.out_channels,
                    spec.bias,
                ),
                place.at(norm_name),
                spec.out_channels,
                false,
                pair,
            ) && match pair {
                Err(error) => result == Err::<Module, LoadError>(error),
                Ok((weight, bias)) => self.is_convolution(
                    weight,
                    Some(bias),
                    spec,
                    activation,
                    result,
                ),
            }
    }

    /// Loads a convolution and folds its normalisation in.
    pub fn load_conv_bn(
        &self,
        builder: &VarBuilder,
        spec: &ConvSpec,
        norm_name: &str,
        activation: Activation,
    ) -> (result: Loaded)
        requires
            self.valid(),
            builder.weights.wf(),
            spec.groups > 0,
        ensures
            self.loads_conv_bn(place_of(*builder), *spec, norm_name, activation, result),
            result matches Ok(module) ==> module.wf(),
    {
        let shape: [usize; 4] = [
            spec.out_channels,
            spec.in_channels / spec.groups,
            spec.kernel[0],
            spec.kernel[1],
        ];
        assert(shape@ =~= spec.weight_shape());
        let stored: Result<(Tensor<Single>, Option<Tensor<Single>>), LoadError> = fetch_pair(
            &builder.pp("convolution"),
            shape,
            spec.out_channels,
            spec.bias,
        );
        let folded: Result<(Tensor<Single>, Tensor<Single>), LoadError> = self.fold_stored(
            stored,
            &builder.pp(norm_name),
            spec.out_channels,
            false,
        );
        let ghost pair = both_seen(folded);
        assert(self.folds_stored(
            stored_pair(
                place_of(*builder).at("convolution"),
                spec.weight_shape(),
                spec.out_channels,
                spec.bias,
            ),
            place_of(*builder).at(norm_name),
            spec.out_channels,
            false,
            pair,
        ));
        match folded {
            Err(error) => Err(error),
            Ok((weight, bias)) => self.make_convolution(weight, Some(bias), spec, activation),
        }
    }

    /// The transposed convolution, doubling both sides, that weights and a bias
    /// may be made into.
    pub open spec fn is_doubling(
        &self,
        weight: TensorView<Single>,
        bias: TensorView<Single>,
        activation: Activation,
        result: Loaded,
    ) -> bool {
        let refusal = transpose_layer_error(weight, Some(bias), seq![2usize, 2usize], 1);
        match result {
            Ok(Module::Spread(layer, behind)) => {
                &&& behind == activation
                &&& refusal is None
                &&& layer.wf()
                &&& layer.weight@ == weight
                &&& bias_view(layer.bias) == Some(bias)
                &&& layer.options.strides == [2usize, 2usize]
                &&& layer.options.pads == [0usize, 0usize, 0usize, 0usize]
                &&& layer.options.groups == 1
            },
            Err(LoadError::Tensor(error)) => refusal == Some(error),
            _ => false,
        }
    }

    fn make_doubling(
        &self,
        weight: Tensor<Single>,
        bias: Tensor<Single>,
        activation: Activation,
    ) -> (result: Loaded)
        requires
            weight@.wf(),
            bias@.wf(),
        ensures
            self.is_doubling(weight@, bias@, activation, result),
            result matches Ok(module) ==> module.wf(),
    {
        let strides: [usize; 2] = [2, 2];
        assert(strides@ =~= seq![2usize, 2usize]);
        match ConvTranspose2d::new(
            weight,
            Some(bias),
            strides,
            [0, 0, 0, 0],
            1,
            self.platform.wide_kernels,
        ) {
            Ok(layer) => Ok(Module::Spread(layer, activation)),
            Err(error) => Err(LoadError::Tensor(error)),
        }
    }

    /// The transposed convolution that a place holds.
    pub open spec fn loads_doubling(
        &self,
        place: Place,
        in_channels: usize,
        out_channels: usize,
        activation: Activation,
        result: Loaded,
    ) -> bool {
        match stored_pair(place, doubling_shape(in_channels, out_channels), out_channels, true) {
            Err(error) => result == Err::<Module, LoadError>(error),
            Ok((weight, bias)) => self.is_doubling(weight, bias->Some_0, activation, result),
        }
    }

    /// Loads a transposed convolution that doubles both sides.
    pub fn load_doubling(
        &self,
        builder: &VarBuilder,
        in_channels: usize,
        out_channels: usize,
        activation: Activation,
    ) -> (result: Loaded)
        requires
            builder.weights.wf(),
        ensures
            self.loads_doubling(place_of(*builder), in_channels, out_channels, activation, result),
            result matches Ok(module) ==> module.wf(),
    {
        let shape: [usize; 4] = [in_channels, out_channels, 2, 2];
        assert(shape@ =~= doubling_shape(in_channels, out_channels));
        match fetch_pair(builder, shape, out_channels, true) {
            Err(error) => Err(error),
            Ok((weight, Some(bias))) => self.make_doubling(weight, bias, activation),
            Ok((_, None)) => Err(LoadError::Tensor(TensorError::Bias)),
        }
    }

    /// The transposed convolution that a place holds, with its normalisation
    /// folded in.
    pub open spec fn loads_doubling_bn(
        &self,
        place: Place,
        in_channels: usize,
        out_channels: usize,
        activation: Activation,
        result: Loaded,
    ) -> bool {
        exists|pair: Pair| #[trigger]
            self.folds_stored(
                stored_pair(
                    place.at("convolution"),
                    doubling_shape(in_channels, out_channels),
                    out_channels,
                    true,
                ),
                place.at("norm"),
                out_channels,
                true,
                pair,
            ) && match pair {
                Err(error) => result == Err::<Module, LoadError>(error),
                Ok((weight, bias)) => self.is_doubling(weight, bias, activation, result),
            }
    }

    /// Loads a transposed convolution and folds its normalisation in.
    pub fn load_doubling_bn(
        &self,
        builder: &VarBuilder,
        in_channels: usize,
        out_channels: usize,
        activation: Activation,
    ) -> (result: Loaded)
        requires
            self.valid(),
            builder.weights.wf(),
        ensures
            self.loads_doubling_bn(
                place_of(*builder),
                in_channels,
                out_channels,
                activation,
                result,
            ),
            result matches Ok(module) ==> module.wf(),
    {
        let shape: [usize; 4] = [in_channels, out_channels, 2, 2];
        assert(shape@ =~= doubling_shape(in_channels, out_channels));
        let stored: Result<(Tensor<Single>, Option<Tensor<Single>>), LoadError> = fetch_pair(
            &builder.pp("convolution"),
            shape,
            out_channels,
            true,
        );
        let folded: Result<(Tensor<Single>, Tensor<Single>), LoadError> = self.fold_stored(
            stored,
            &builder.pp("norm"),
            out_channels,
            true,
        );
        let ghost pair = both_seen(folded);
        assert(self.folds_stored(
            stored_pair(
                place_of(*builder).at("convolution"),
                doubling_shape(in_channels, out_channels),
                out_channels,
                true,
            ),
            place_of(*builder).at("norm"),
            out_channels,
            true,
            pair,
        ));
        match folded {
            Err(error) => Err(error),
            Ok((weight, bias)) => self.make_doubling(weight, bias, activation),
        }
    }

    /// The convolution along a line that a place holds, with the normalisation
    /// of another folded in.
    pub open spec fn loads_line_conv(
        &self,
        place: Place,
        norm: Place,
        channels: usize,
        kernel: usize,
        groups: usize,
        activation: Activation,
        result: Loaded,
    ) -> bool {
        let group_channels = (channels as int / groups as int) as usize;
        exists|pair: Pair| #[trigger]
            self.folds_stored(
                stored_pair(place, line_shape(channels, group_channels, kernel), channels, false),
                norm,
                channels,
                false,
                pair,
            ) && match pair {
                Err(error) => result == Err::<Module, LoadError>(error),
                Ok((weight, bias)) => match reshaped(
                    Ok(weight),
                    seq![channels, group_channels, 1usize, kernel],
                ) {
                    Err(error) => result == Err::<Module, LoadError>(LoadError::Tensor(error)),
                    Ok(planes) => self.is_convolution(
                        planes,
                        Some(bias),
                        line_spec(channels, kernel, groups),
                        activation,
                        result,
                    ),
                },
            }
    }

    /// Loads a convolution along a line and folds its normalisation in.
    pub fn load_line_conv(
        &self,
        builder: &VarBuilder,
        norm: &VarBuilder,
        channels: usize,
        kernel: usize,
        groups: usize,
        activation: Activation,
    ) -> (result: Loaded)
        requires
            self.valid(),
            builder.weights.wf(),
            norm.weights.wf(),
            groups > 0,
        ensures
            self.loads_line_conv(
                place_of(*builder),
                place_of(*norm),
                channels,
                kernel,
                groups,
                activation,
                result,
            ),
            result matches Ok(module) ==> module.wf(),
    {
        let group_channels: usize = channels / groups;
        let shape: [usize; 3] = [channels, group_channels, kernel];
        assert(shape@ =~= line_shape(channels, group_channels, kernel));
        let stored: Result<(Tensor<Single>, Option<Tensor<Single>>), LoadError> = fetch_pair(
            builder,
            shape,
            channels,
            false,
        );
        let folded: Result<(Tensor<Single>, Tensor<Single>), LoadError> = self.fold_stored(
            stored,
            norm,
            channels,
            false,
        );
        let ghost pair = both_seen(folded);
        assert(self.folds_stored(
            stored_pair(
                place_of(*builder),
                line_shape(channels, group_channels, kernel),
                channels,
                false,
            ),
            place_of(*norm),
            channels,
            false,
            pair,
        ));
        match folded {
            Err(error) => Err(error),
            Ok((weight, bias)) => {
                let planes: [usize; 4] = [channels, group_channels, 1, kernel];
                assert(planes@ =~= seq![channels, group_channels, 1usize, kernel]);
                match weight.reshape(planes) {
                    Err(error) => Err(LoadError::Tensor(error)),
                    Ok(tensor) => {
                        let padding: usize = kernel / 2;
                        let spec: ConvSpec = ConvSpec {
                            in_channels: channels,
                            out_channels: channels,
                            kernel: [1, kernel],
                            stride: [1, 1],
                            pads: [0, padding, 0, padding],
                            bias: false,
                            groups,
                        };
                        self.make_convolution(tensor, Some(bias), &spec, activation)
                    },
                }
            },
        }
    }

    /// The linear layer that a place holds.
    pub open spec fn is_linear(
        &self,
        place: Place,
        input: usize,
        output: usize,
        result: Result<Linear<Single>, LoadError>,
    ) -> bool {
        match stored_pair(place, seq![output, input], output, true) {
            Err(error) => result == Err::<Linear<Single>, LoadError>(error),
            Ok((weight, bias)) => match result {
                Ok(layer) => linear_error(weight, bias) is None && layer.wf() && layer.weight@
                    == weight && bias_view(layer.bias) == bias,
                Err(error) => linear_error(weight, bias) is Some && error == LoadError::Tensor(
                    linear_error(weight, bias)->Some_0,
                ),
            },
        }
    }

    fn make_linear(&self, builder: &VarBuilder, input: usize, output: usize) -> (result: Result<
        Linear<Single>,
        LoadError,
    >)
        requires
            builder.weights.wf(),
        ensures
            self.is_linear(place_of(*builder), input, output, result),
            result matches Ok(layer) ==> layer.wf(),
    {
        let shape: [usize; 2] = [output, input];
        assert(shape@ =~= seq![output, input]);
        match fetch_pair(builder, shape, output, true) {
            Err(error) => Err(error),
            Ok((weight, bias)) => match Linear::new(weight, bias) {
                Ok(layer) => Ok(layer),
                Err(error) => Err(LoadError::Tensor(error)),
            },
        }
    }

    /// The linear layer that a place holds, as a module.
    pub open spec fn loads_linear(
        &self,
        place: Place,
        input: usize,
        output: usize,
        activation: Activation,
        shares: bool,
        result: Loaded,
    ) -> bool {
        match result {
            Ok(Module::Projection(layer, behind, turned)) => behind == activation && turned
                == shares && self.is_linear(place, input, output, Ok(layer)),
            Err(error) => self.is_linear(place, input, output, Err(error)),
            _ => false,
        }
    }

    /// Loads a linear layer.
    pub fn load_linear(
        &self,
        builder: &VarBuilder,
        input: usize,
        output: usize,
        activation: Activation,
        shares: bool,
    ) -> (result: Loaded)
        requires
            builder.weights.wf(),
        ensures
            self.loads_linear(place_of(*builder), input, output, activation, shares, result),
            result matches Ok(module) ==> module.wf(),
    {
        match self.make_linear(builder, input, output) {
            Ok(layer) => Ok(Module::Projection(layer, activation, shares)),
            Err(error) => Err(error),
        }
    }

    /// The layer normalisation that a place holds.
    pub open spec fn loads_layer_norm(
        &self,
        place: Place,
        features: usize,
        result: Loaded,
    ) -> bool {
        match stored_pair(place, seq![features], features, true) {
            Err(error) => result == Err::<Module, LoadError>(error),
            Ok((weight, bias)) => match result {
                Ok(Module::Level(layer)) => norm_error(weight, bias->Some_0, self.epsilon) is None
                    && layer.wf() && layer.weight@ == weight && layer.bias@ == bias->Some_0
                    && layer.epsilon == self.epsilon,
                Err(LoadError::Tensor(error)) => norm_error(
                    weight,
                    bias->Some_0,
                    self.epsilon,
                ) == Some(error),
                _ => false,
            },
        }
    }

    /// Loads layer normalisation.
    pub fn load_layer_norm(&self, builder: &VarBuilder, features: usize) -> (result: Loaded)
        requires
            builder.weights.wf(),
        ensures
            self.loads_layer_norm(place_of(*builder), features, result),
            result matches Ok(module) ==> module.wf(),
    {
        let shape: [usize; 1] = [features];
        assert(shape@ =~= seq![features]);
        match fetch_pair(builder, shape, features, true) {
            Err(error) => Err(error),
            Ok((weight, Some(bias))) => match LayerNorm::new(weight, bias, self.epsilon) {
                Ok(layer) => Ok(Module::Level(layer)),
                Err(error) => Err(LoadError::Tensor(error)),
            },
            Ok((_, None)) => Err(LoadError::Tensor(TensorError::Bias)),
        }
    }

    /// Attention with the layers that a place holds.
    pub open spec fn loads_attention(
        &self,
        place: Place,
        hidden_size: usize,
        num_heads: usize,
        result: Loaded,
    ) -> bool {
        let tripled = (hidden_size * 3) as usize;
        match result {
            Ok(Module::Attention(layer)) => {
                &&& layer.hidden_size == hidden_size && layer.num_heads == num_heads
                &&& self.is_linear(place.at("qkv"), hidden_size, tripled, Ok(layer.qkv))
                &&& self.is_linear(
                    place.at("projection"),
                    hidden_size,
                    hidden_size,
                    Ok(layer.projection),
                )
            },
            Err(error) => {
                ||| self.is_linear(place.at("qkv"), hidden_size, tripled, Err(error))
                ||| self.is_linear(place.at("projection"), hidden_size, hidden_size, Err(error))
                    && exists|layer: Linear<Single>| #[trigger]
                        self.is_linear(place.at("qkv"), hidden_size, tripled, Ok(layer))
            },
            _ => false,
        }
    }

    /// Loads attention.
    pub fn load_attention(
        &self,
        builder: &VarBuilder,
        hidden_size: usize,
        num_heads: usize,
    ) -> (result: Loaded)
        requires
            builder.weights.wf(),
            num_heads > 0,
            hidden_size * 3 <= usize::MAX,
        ensures
            self.loads_attention(place_of(*builder), hidden_size, num_heads, result),
            result matches Ok(module) ==> module.wf(),
    {
        let qkv: Linear<Single> = match self.make_linear(
            &builder.pp("qkv"),
            hidden_size,
            hidden_size * 3,
        ) {
            Err(error) => {
                return Err(error);
            },
            Ok(layer) => layer,
        };
        match self.make_linear(&builder.pp("projection"), hidden_size, hidden_size) {
            Err(error) => Err(error),
            Ok(projection) => Ok(
                Module::Attention(RecAttention { qkv, projection, hidden_size, num_heads }),
            ),
        }
    }

    /// The weights and the bias of three branches, added at the middle of the
    /// kernel of the first.
    pub open spec fn fuses(
        &self,
        symmetric: TensorView<Single>,
        symmetric_bias: TensorView<Single>,
        vertical: TensorView<Single>,
        vertical_bias: TensorView<Single>,
        horizontal: TensorView<Single>,
        horizontal_bias: TensorView<Single>,
        result: Pair,
    ) -> bool {
        let refusal = fuse_error(
            symmetric,
            symmetric_bias,
            vertical,
            vertical_bias,
            horizontal,
            horizontal_bias,
        );
        match result {
            Ok((weight, bias)) => {
                &&& refusal is None
                &&& weight.wf() && bias.wf()
                &&& weight.shape == symmetric.shape
                &&& bias.shape == seq![symmetric.shape[0]]
                &&& weight.data is F32 && bias.data is F32
                &&& forall|i: int|
                    0 <= i < weight.data.len() ==> is_fused_cell(
                        self.addition,
                        symmetric.data->F32_0,
                        vertical.data->F32_0,
                        horizontal.data->F32_0,
                        symmetric.shape[2] as int,
                        i,
                        #[trigger] weight.data->F32_0[i],
                    )
                &&& forall|c: int|
                    0 <= c < bias.data.len() ==> is_fused_bias(
                        self.addition,
                        symmetric_bias.data->F32_0[c],
                        vertical_bias.data->F32_0[c],
                        horizontal_bias.data->F32_0[c],
                        #[trigger] bias.data->F32_0[c],
                    )
            },
            Err(error) => refusal is Some && error == LoadError::Tensor(refusal->Some_0),
        }
    }

    /// The convolution that three branches of a place are made into.
    pub open spec fn loads_fused(
        &self,
        place: Place,
        symmetric_name: &str,
        vertical_name: &str,
        horizontal_name: &str,
        kernel: usize,
        result: Loaded,
    ) -> bool {
        let symmetric = stored_pair(
            place.at(symmetric_name),
            seq![32usize, 32usize, kernel, kernel],
            32,
            true,
        );
        let vertical = stored_pair(
            place.at(vertical_name),
            seq![32usize, 32usize, kernel, 1usize],
            32,
            true,
        );
        let horizontal = stored_pair(
            place.at(horizontal_name),
            seq![32usize, 32usize, 1usize, kernel],
            32,
            true,
        );
        match (symmetric, vertical, horizontal) {
            (Err(error), _, _) => result == Err::<Module, LoadError>(error),
            (_, Err(error), _) => result == Err::<Module, LoadError>(error),
            (_, _, Err(error)) => result == Err::<Module, LoadError>(error),
            (Ok(first), Ok(second), Ok(third)) => exists|pair: Pair| #[trigger]
                self.fuses(
                    first.0,
                    first.1->Some_0,
                    second.0,
                    second.1->Some_0,
                    third.0,
                    third.1->Some_0,
                    pair,
                ) && match pair {
                    Err(error) => result == Err::<Module, LoadError>(error),
                    Ok((weight, bias)) => self.is_convolution(
                        weight,
                        Some(bias),
                        same_spec(32, 32, kernel, true, 1),
                        Activation::Identity,
                        result,
                    ),
                },
        }
    }

    /// Loads three branches as one convolution.
    pub fn load_fused(
        &self,
        builder: &VarBuilder,
        symmetric_name: &str,
        vertical_name: &str,
        horizontal_name: &str,
        kernel: usize,
    ) -> (result: Loaded)
        requires
            self.valid(),
            builder.weights.wf(),
        ensures
            self.loads_fused(
                place_of(*builder),
                symmetric_name,
                vertical_name,
                horizontal_name,
                kernel,
                result,
            ),
            loaded_wf(result),
    {
        let square_shape: [usize; 4] = [32, 32, kernel, kernel];
        let tall_shape: [usize; 4] = [32, 32, kernel, 1];
        let wide_shape: [usize; 4] = [32, 32, 1, kernel];
        assert(square_shape@ =~= seq![32usize, 32usize, kernel, kernel]);
        assert(tall_shape@ =~= seq![32usize, 32usize, kernel, 1usize]);
        assert(wide_shape@ =~= seq![32usize, 32usize, 1usize, kernel]);
        let symmetric = match fetch_pair(&builder.pp(symmetric_name), square_shape, 32, true) {
            Err(error) => {
                return Err(error);
            },
            Ok(pair) => pair,
        };
        let vertical = match fetch_pair(&builder.pp(vertical_name), tall_shape, 32, true) {
            Err(error) => {
                return Err(error);
            },
            Ok(pair) => pair,
        };
        let horizontal = match fetch_pair(&builder.pp(horizontal_name), wide_shape, 32, true) {
            Err(error) => {
                return Err(error);
            },
            Ok(pair) => pair,
        };
        match (symmetric, vertical, horizontal) {
            ((first, Some(first_bias)), (second, Some(second_bias)), (third, Some(third_bias))) => {
                let fused: Result<(Tensor<Single>, Tensor<Single>), LoadError> =
                    match fuse_intraclass_conv(
                    &self.addition,
                    &first,
                    &first_bias,
                    &second,
                    &second_bias,
                    &third,
                    &third_bias,
                ) {
                    Ok(pair) => Ok(pair),
                    Err(error) => Err(LoadError::Tensor(error)),
                };
                let ghost pair = both_seen(fused);
                proof {
                    let place = place_of(*builder);
                    let one = stored_pair(place.at(symmetric_name), square_shape@, 32, true)->Ok_0;
                    let two = stored_pair(place.at(vertical_name), tall_shape@, 32, true)->Ok_0;
                    let three = stored_pair(place.at(horizontal_name), wide_shape@, 32, true)->Ok_0;
                    assert(one == (first@, Some(first_bias@)));
                    assert(two == (second@, Some(second_bias@)));
                    assert(three == (third@, Some(third_bias@)));
                    assert(self.fuses(
                        one.0,
                        one.1->Some_0,
                        two.0,
                        two.1->Some_0,
                        three.0,
                        three.1->Some_0,
                        pair,
                    ));
                }
                match fused {
                    Err(error) => Err(error),
                    Ok((weight, bias)) => {
                        let spec: ConvSpec = square(32, 32, kernel, [1, 1], true, 1);
                        assert(spec == same_spec(32, 32, kernel, true, 1));
                        let result: Loaded = self.make_convolution(
                            weight,
                            Some(bias),
                            &spec,
                            Activation::Identity,
                        );
                        assert(self.is_convolution(
                            weight@,
                            Some(bias@),
                            same_spec(32, 32, kernel, true, 1),
                            Activation::Identity,
                            result,
                        ));
                        result
                    },
                }
            },
            _ => {
                Err(LoadError::Tensor(TensorError::Bias))
            },
        }
    }

    /// The factors of dense weights.
    pub open spec fn factors(
        &self,
        weight: TensorView<Single>,
        in_channels: usize,
        out_channels: usize,
        kernel: usize,
        result: Pair,
    ) -> bool {
        exists|found: Result<(TensorView<Single>, TensorView<Single>), FactorError>|
            {
                &&& #[trigger] takes_apart(
                    self.finite,
                    self.factor,
                    self.accept,
                    weight,
                    in_channels,
                    out_channels,
                    kernel,
                    found,
                )
                &&& result == match found {
                    Ok(factors) => Ok(factors),
                    Err(error) => Err(LoadError::Factor(error)),
                }
            }
    }

    /// The two convolutions that the dense one of a place is taken apart into.
    pub open spec fn loads_rank_one(
        &self,
        place: Place,
        in_channels: usize,
        out_channels: usize,
        kernel: usize,
        result: Loaded,
    ) -> bool {
        match stored_pair(
            place,
            seq![out_channels, in_channels, kernel, kernel],
            out_channels,
            true,
        ) {
            Err(error) => result == Err::<Module, LoadError>(error),
            Ok((weight, bias)) => exists|pair: Pair| #[trigger]
                self.factors(weight, in_channels, out_channels, kernel, pair) && match pair {
                    Err(error) => result == Err::<Module, LoadError>(error),
                    Ok((depthwise, pointwise)) => exists|first: Loaded, second: Loaded|
                        {
                            &&& #[trigger] self.is_convolution(
                                depthwise,
                                None,
                                same_spec(in_channels, in_channels, kernel, false, in_channels),
                                Activation::Identity,
                                first,
                            )
                            &&& #[trigger] self.is_convolution(
                                pointwise,
                                bias,
                                pointwise_spec(in_channels, out_channels, true),
                                Activation::Identity,
                                second,
                            )
                            &&& chains(seq![first, second], result)
                        },
                },
        }
    }

    /// Loads a dense convolution and takes it apart.
    pub fn load_rank_one(
        &self,
        builder: &VarBuilder,
        in_channels: usize,
        out_channels: usize,
        kernel: usize,
    ) -> (result: Loaded)
        requires
            self.valid(),
            builder.weights.wf(),
        ensures
            self.loads_rank_one(place_of(*builder), in_channels, out_channels, kernel, result),
            loaded_wf(result),
    {
        let shape: [usize; 4] = [out_channels, in_channels, kernel, kernel];
        assert(shape@ =~= seq![out_channels, in_channels, kernel, kernel]);
        let (weight, bias): (Tensor<Single>, Option<Tensor<Single>>) = match fetch_pair(
            builder,
            shape,
            out_channels,
            true,
        ) {
            Err(error) => {
                return Err(error);
            },
            Ok(pair) => pair,
        };
        let factors: Result<(Tensor<Single>, Tensor<Single>), FactorError> =
            factor_rank_one_conv_weight(
            &weight,
            in_channels,
            out_channels,
            kernel,
            &self.finite,
            &self.factor,
            &self.accept,
        );
        let ghost seen = factors_seen(factors);
        assert(takes_apart(
            self.finite,
            self.factor,
            self.accept,
            weight@,
            in_channels,
            out_channels,
            kernel,
            seen,
        ));
        let found: Result<(Tensor<Single>, Tensor<Single>), LoadError> = match factors {
            Ok(pair) => Ok(pair),
            Err(error) => Err(LoadError::Factor(error)),
        };
        let ghost pair = both_seen(found);
        assert(self.factors(weight@, in_channels, out_channels, kernel, pair));
        match found {
            Err(error) => Err(error),
            Ok((depthwise, pointwise_weight)) => {
                let first: Loaded = self.make_convolution(
                    depthwise,
                    None,
                    &square(in_channels, in_channels, kernel, [1, 1], false, in_channels),
                    Activation::Identity,
                );
                let second: Loaded = self.make_convolution(
                    pointwise_weight,
                    bias,
                    &pointwise(in_channels, out_channels, true),
                    Activation::Identity,
                );
                let ghost parts = seq![first, second];
                assert(self.is_convolution(
                    depthwise@,
                    None,
                    same_spec(in_channels, in_channels, kernel, false, in_channels),
                    Activation::Identity,
                    first,
                ));
                let list: Vec<Loaded> = vec![first, second];
                assert(list@ =~= parts);
                chain(list)
            },
        }
    }
}

} // verus!
