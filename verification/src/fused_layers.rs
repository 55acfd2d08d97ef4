//! Two layers that are carried out together where they fit, and one after the
//! other where they do not.
use vstd::prelude::*;
use crate::accumulate::{activation_valid, Arithmetic};
use crate::broadcast::{binary, binary_error, combines};
use crate::conv::lemma_product4;
use crate::conv_layer::{is_forward, Conv2d};
use crate::conv_plan::{pair_rows, Platform};
use crate::convolution::depthwise_kernel;
use crate::elementwise::row_of;
use crate::layout::{lemma_wf_count, views};
use crate::pointwise::{
    channels_at, is_pair, is_separable, is_stage, joins_all, residual_valid,
    run_depthwise_pointwise, run_pointwise_pair_tiles, Depthwise, Stage,
};
use crate::pooling::view_of;
use crate::shape::{counts, element_count, lemma_product_bounds};
use crate::tensor::{Tensor, TensorError, TensorView};

verus! {

impl<F> Conv2d<F> {
    /// The groups of interleaved output channels that a fused pair can use.
    pub open spec fn pair_block(self, platform: Platform) -> Option<usize> {
        if pair_rows(self.geometry, self.plan, platform) == self.plan.block_rows {
            self.plan.block_rows
        } else {
            None
        }
    }
}

/// Whether two layers by a single cell can be carried out together on an input.
pub open spec fn pair_fits<F>(
    first: Conv2d<F>,
    second: Conv2d<F>,
    input: TensorView<F>,
    residual: bool,
    platform: Platform,
) -> bool {
    &&& first.pair_block(platform) is Some
    &&& second.pair_block(platform) is Some
    &&& first.geometry.single()
    &&& second.geometry.single()
    &&& input.data is F32
    &&& input.shape.len() == 4
    &&& input.shape[0] > 0 && input.shape[1] > 0 && input.shape[2] > 0 && input.shape[3] > 0
    &&& input.shape[1] == first.geometry.channels_per_group
    &&& second.geometry.channels_per_group == first.geometry.output_channels
    &&& residual ==> second.geometry.output_channels == first.geometry.channels_per_group
    &&& first.geometry.output_channels * 32 <= usize::MAX
    &&& second.geometry.output_channels * 32 <= usize::MAX
}

/// The interleaved weights of a layer as a stage.
fn stage_of<F: Copy>(layer: &Conv2d<F>, platform: Platform) -> (result: Option<Stage<'_, F>>)
    requires
        layer.wf(),
        layer.geometry.single(),
    ensures
        match result {
            Some(stage) => {
                &&& layer.pair_block(platform) is Some
                &&& stage.weight@ == layer.packed->Some_0@
                &&& stage.rows == layer.geometry.output_channels
                &&& stage.inner == layer.geometry.channels_per_group
                &&& layer.pair_block(platform) == Some(stage.block_rows)
                &&& layer.geometry.channels_per_group > 0 ==> stage.valid()
                &&& match stage.bias {
                    Some(values) => layer.bias is Some && values@
                        == layer.bias->Some_0@.data->F32_0,
                    None => layer.bias is None,
                }
            },
            None => layer.pair_block(platform) is None,
        },
{
    let rows: Option<usize> = layer.packed_pointwise_block_rows(platform);
    proof {
        let inner: int = layer.geometry.channels_per_group as int;
        assert(inner * 1 * 1 == inner) by (nonlinear_arith);
    }
    match (rows, layer.plan.block_rows, &layer.packed) {
        (Some(rows), Some(block), Some(packed)) => {
            if rows != block {
                return None;
            }
            let bias: Option<&[F]> = match &layer.bias {
                Some(tensor) => match tensor.as_f32() {
                    Ok(values) => Some(values),
                    Err(_) => None,
                },
                None => None,
            };
            Some(
                Stage {
                    weight: packed.as_slice(),
                    bias,
                    rows: layer.geometry.output_channels,
                    inner: layer.geometry.channels_per_group,
                    block_rows: block,
                },
            )
        },
        _ => None,
    }
}

/// A place of the output is what the pair makes of the place of the input; with
/// a residual addition the input's channels are added.
pub open spec fn is_pair_place<F, M: Fn(F, F, F) -> F, A: Fn(F) -> F, G: Fn(F, F) -> F>(
    arithmetic: &Arithmetic<F, M>,
    activation: Option<&A>,
    first: &Stage<F>,
    second: &Stage<F>,
    residual: Option<&G>,
    values: Seq<F>,
    after: Seq<F>,
) -> bool {
    is_pair(
        arithmetic,
        activation,
        first,
        second,
        residual,
        values,
        if residual is Some {
            values
        } else {
            after
        },
        after,
    )
}

/// The output of a fused pair.
pub open spec fn is_fused_pair<F, M: Fn(F, F, F) -> F, A: Fn(F) -> F, G: Fn(F, F) -> F>(
    arithmetic: &Arithmetic<F, M>,
    activation: Option<&A>,
    first: &Stage<F>,
    second: &Stage<F>,
    residual: Option<&G>,
    input: TensorView<F>,
    result: TensorView<F>,
) -> bool {
    let plane: int = input.shape[2] * input.shape[3];
    &&& result.wf()
    &&& result.shape == seq![input.shape[0], second.rows, input.shape[2], input.shape[3]]
    &&& result.data is F32
    &&& forall|b: int, place: int|
        0 <= b < input.shape[0] && 0 <= place < plane ==> is_pair_place(
            arithmetic,
            activation,
            first,
            second,
            residual,
            channels_at(input.data->F32_0, first.inner as int, plane, b, place),
            #[trigger] channels_at(result.data->F32_0, second.rows as int, plane, b, place),
        )
}

/// A stage holds the interleaved weights and the bias of a layer.
pub open spec fn is_stage_of<F>(layer: Conv2d<F>, stage: &Stage<F>) -> bool {
    &&& stage.weight@ == layer.packed->Some_0@
    &&& stage.rows == layer.geometry.output_channels
    &&& stage.inner == layer.geometry.channels_per_group
    &&& Some(stage.block_rows) == layer.plan.block_rows
    &&& match stage.bias {
        Some(values) => layer.bias is Some && values@ == layer.bias->Some_0@.data->F32_0,
        None => layer.bias is None,
    }
}

/// What adding two tensors may give.
pub open spec fn adds<F, G: Fn(F, F) -> F>(
    addition: G,
    left: TensorView<F>,
    right: TensorView<F>,
    result: Result<TensorView<F>, TensorError>,
) -> bool {
    match result {
        Ok(tensor) => binary_error(seq![left, right]) is None && combines(
            addition,
            addition,
            left,
            right,
            tensor,
        ),
        Err(error) => binary_error(seq![left, right]) == Some(error),
    }
}

/// What two layers one after the other may give: the first with its activation,
/// the second without, and the residual addition behind them.
pub open spec fn is_sequence<F, M: Fn(F, F, F) -> F, A: Fn(F) -> F, G: Fn(F, F) -> F>(
    arithmetic: &Arithmetic<F, M>,
    activation: Option<&A>,
    first: Conv2d<F>,
    second: Conv2d<F>,
    residual: Option<&G>,
    single_thread: bool,
    input: TensorView<F>,
    result: Result<TensorView<F>, TensorError>,
) -> bool {
    exists|hidden: Result<TensorView<F>, TensorError>|
        #[trigger] is_forward(first, arithmetic, activation, single_thread, input, hidden)
            && match hidden {
            Err(error) => result == Err::<TensorView<F>, TensorError>(error),
            Ok(middle) => is_second(
                arithmetic,
                None::<&A>,
                second,
                residual,
                single_thread,
                input,
                middle,
                result,
            ),
        }
}

/// What the second of two layers and the residual addition may give.
pub open spec fn is_second<F, M: Fn(F, F, F) -> F, A: Fn(F) -> F, G: Fn(F, F) -> F>(
    arithmetic: &Arithmetic<F, M>,
    activation: Option<&A>,
    second: Conv2d<F>,
    residual: Option<&G>,
    single_thread: bool,
    input: TensorView<F>,
    middle: TensorView<F>,
    result: Result<TensorView<F>, TensorError>,
) -> bool {
    exists|output: Result<TensorView<F>, TensorError>|
        #[trigger] is_forward(second, arithmetic, activation, single_thread, middle, output)
            && match (output, residual) {
            (Err(error), _) => result == Err::<TensorView<F>, TensorError>(error),
            (Ok(tensor), None) => result == Ok::<TensorView<F>, TensorError>(tensor),
            (Ok(tensor), Some(addition)) => adds(*addition, input, tensor, result),
        }
}

/// Without a residual addition it does not matter what was there before.
proof fn lemma_pair_before<F, M: Fn(F, F, F) -> F, A: Fn(F) -> F, G: Fn(F, F) -> F>(
    arithmetic: &Arithmetic<F, M>,
    activation: Option<&A>,
    first: &Stage<F>,
    second: &Stage<F>,
    residual: Option<&G>,
    values: Seq<F>,
    before: Seq<F>,
    after: Seq<F>,
)
    requires
        is_pair(arithmetic, activation, first, second, residual, values, before, after),
        residual is Some ==> before == values,
    ensures
        is_pair_place(arithmetic, activation, first, second, residual, values, after),
{
    let (hidden, sums) = choose|hidden: Seq<F>, sums: Seq<F>|
        #![trigger is_stage(arithmetic, activation, first, values, hidden), is_stage(
            arithmetic,
            None::<&A>,
            second,
            hidden,
            sums,
        )]
        is_stage(arithmetic, activation, first, values, hidden) && is_stage(
            arithmetic,
            None::<&A>,
            second,
            hidden,
            sums,
        ) && joins_all(residual, before, sums, after);
    if residual is None {
        assert(joins_all(residual, after, sums, after));
    }
}

/// Two layers by a single cell, the first with an activation; with `residual`
/// the input is added to what they give.
#[verifier::spinoff_prover]
pub fn forward_pointwise_pair_gelu<F: Copy, M: Fn(F, F, F) -> F, A: Fn(F) -> F, G: Fn(F, F) -> F>(
    arithmetic: &Arithmetic<F, M>,
    activation: Option<&A>,
    first: &Conv2d<F>,
    second: &Conv2d<F>,
    residual: Option<&G>,
    threads: usize,
    platform: Platform,
    input: &Tensor<F>,
) -> (result: Result<Tensor<F>, TensorError>)
    requires
        arithmetic.valid(),
        activation_valid(activation),
        residual_valid(residual),
        first.wf(),
        second.wf(),
        input@.wf(),
    ensures
        if pair_fits(*first, *second, input@, residual is Some, platform) {
            if !counts(
                seq![
                    input@.shape[0],
                    second.geometry.output_channels,
                    input@.shape[2],
                    input@.shape[3],
                ],
            ) {
                result matches Err(error) && error == TensorError::ShapeOverflow
            } else {
                result matches Ok(tensor) && exists|one: &Stage<F>, two: &Stage<F>|
                    is_stage_of(*first, one) && is_stage_of(*second, two)
                        && #[trigger] is_fused_pair(
                        arithmetic,
                        activation,
                        one,
                        two,
                        residual,
                        input@,
                        tensor@,
                    )
            }
        } else {
            is_sequence(
                arithmetic,
                activation,
                *first,
                *second,
                residual,
                threads == 1,
                input@,
                view_of(result),
            )
        },
{
    let shape: &[usize] = input.shape();
    let singles: bool = first.geometry.kernel_height == 1 && first.geometry.kernel_width == 1
        && second.geometry.kernel_height == 1 && second.geometry.kernel_width == 1;
    if singles && input.as_f32().is_ok() && shape.len() == 4 && shape[0] > 0 && shape[1] > 0
        && shape[2] > 0 && shape[3] > 0 && shape[1] == first.geometry.channels_per_group
        && second.geometry.channels_per_group == first.geometry.output_channels && (
    residual.is_none() || second.geometry.output_channels == first.geometry.channels_per_group)
        && first.geometry.output_channels <= usize::MAX / 32 && second.geometry.output_channels
        <= usize::MAX / 32 {
        if let (Some(one), Some(two)) = (stage_of(first, platform), stage_of(second, platform)) {
            assert(pair_fits(*first, *second, input@, residual is Some, platform));
            let batch: usize = shape[0];
            let height: usize = shape[2];
            let width: usize = shape[3];
            let dims: Vec<usize> = vec![batch, two.rows, height, width];
            assert(dims@ =~= seq![batch, two.rows, height, width]);
            let total: usize = match element_count(dims.as_slice()) {
                None => {
                    return Err(TensorError::ShapeOverflow);
                },
                Some(total) => total,
            };
            let values: &[F] = match input.as_f32() {
                Err(error) => {
                    return Err(error);
                },
                Ok(values) => values,
            };
            let len: usize = values.len();
            let ghost cells: int = height * width;
            proof {
                lemma_wf_count(input@);
                assert(shape@ =~= seq![batch, shape@[1], height, width]);
                lemma_product4(batch, shape@[1], height, width);
                lemma_product4(batch, two.rows, height, width);
                lemma_product_bounds(dims@);
                assert(cells >= 1) by (nonlinear_arith)
                    requires
                        cells == height * width,
                        height >= 1,
                        width >= 1,
                ;
                let channels: int = shape@[1] as int;
                assert(cells <= len) by (nonlinear_arith)
                    requires
                        len == batch * channels * cells,
                        batch >= 1,
                        channels >= 1,
                        cells >= 1,
                ;
            }
            let plane: usize = height * width;
            let mut output: Vec<F> = if residual.is_some() {
                vstd::slice::slice_to_vec(values)
            } else {
                crate::arena::zeroed(Vec::new(), total, arithmetic.zero)
            };
            let ghost before = output@;
            assert(output@.len() == batch * two.rows * plane);
            run_pointwise_pair_tiles(
                arithmetic,
                threads,
                &one,
                &two,
                activation,
                residual,
                values,
                &mut output,
                batch,
                plane,
            );
            let tensor: Tensor<F> = Tensor::new_f32(dims, output);
            proof {
                assert forall|b: int, place: int|
                    0 <= b < batch && 0 <= place < plane implies is_pair_place(
                    arithmetic,
                    activation,
                    &one,
                    &two,
                    residual,
                    channels_at(values@, one.inner as int, plane as int, b, place),
                    #[trigger] channels_at(
                        tensor@.data->F32_0,
                        two.rows as int,
                        plane as int,
                        b,
                        place,
                    ),
                ) by {
                    lemma_pair_before(
                        arithmetic,
                        activation,
                        &one,
                        &two,
                        residual,
                        channels_at(values@, one.inner as int, plane as int, b, place),
                        channels_at(before, two.rows as int, plane as int, b, place),
                        channels_at(tensor@.data->F32_0, two.rows as int, plane as int, b, place),
                    );
                }
                assert(is_fused_pair(
                    arithmetic,
                    activation,
                    &one,
                    &two,
                    residual,
                    input@,
                    tensor@,
                ));
            }
            return Ok(tensor);
        }
    }
    assert(!pair_fits(*first, *second, input@, residual is Some, platform));
    let single_thread: bool = threads == 1;
    let hidden: Result<Tensor<F>, TensorError> = first.forward(
        arithmetic,
        activation,
        single_thread,
        input,
    );
    let ghost hidden_view = view_of(hidden);
    let middle: Tensor<F> = match hidden {
        Err(error) => {
            return Err(error);
        },
        Ok(middle) => middle,
    };
    let none: Option<&A> = None;
    let output: Result<Tensor<F>, TensorError> = second.forward(
        arithmetic,
        none,
        single_thread,
        &middle,
    );
    let ghost output_view = view_of(output);
    let result: Result<Tensor<F>, TensorError> = match (output, residual) {
        (Err(error), _) => Err(error),
        (Ok(tensor), None) => Ok(tensor),
        (Ok(tensor), Some(addition)) => {
            let mut inputs: Vec<Tensor<F>> = Vec::new();
            inputs.push(input.duplicate());
            inputs.push(tensor);
            assert(views(inputs@) =~= seq![input@, tensor@]);
            assert forall|i: int| 0 <= i < inputs@.len() implies (#[trigger] inputs@[i])@.wf() by {
                assert(views(inputs@)[i] == inputs@[i]@);
            }
            binary(inputs.as_slice(), addition, addition)
        },
    };
    proof {
        assert(is_forward(*first, arithmetic, activation, single_thread, input@, hidden_view));
        assert(is_forward(*second, arithmetic, None::<&A>, single_thread, middle@, output_view));
        assert(is_second(
            arithmetic,
            None::<&A>,
            *second,
            residual,
            single_thread,
            input@,
            middle@,
            view_of(result),
        ));
    }
    result
}

/// Whether a depthwise layer and one by a single cell can be carried out together.
pub open spec fn separable_fits<F>(
    depthwise: Conv2d<F>,
    pointwise: Conv2d<F>,
    input: TensorView<F>,
    platform: Platform,
) -> bool {
    let kernel = depthwise.geometry.kernel_height;
    &&& pointwise.pair_block(platform) is Some
    &&& pointwise.geometry.single()
    &&& depthwise.geometry.channels_per_group == 1
    &&& kernel == depthwise.geometry.kernel_width
    &&& depthwise_kernel(kernel as int)
    &&& depthwise.geometry.steps_one()
    &&& forall|i: int| 0 <= i < 4 ==> #[trigger] depthwise.geometry.pads@[i] == kernel / 2
    &&& depthwise.geometry.groups == depthwise.geometry.output_channels
    &&& input.data is F32
    &&& input.shape.len() == 4
    &&& input.shape[0] > 0 && input.shape[2] > 0 && input.shape[3] > 0
    &&& input.shape[1] == depthwise.geometry.output_channels
    &&& pointwise.geometry.channels_per_group == depthwise.geometry.output_channels
    &&& input.shape[2] + kernel <= usize::MAX
    &&& input.shape[3] + kernel <= usize::MAX
    &&& pointwise.geometry.output_channels * 16 <= usize::MAX
}

/// A depthwise convolution holds the weights and the bias of a layer.
pub open spec fn is_depthwise_of<F>(
    layer: Conv2d<F>,
    input: TensorView<F>,
    depthwise: &Depthwise<F>,
) -> bool {
    &&& depthwise.weight@ == layer.weight@.data->F32_0
    &&& depthwise.channels == layer.geometry.output_channels
    &&& depthwise.kernel == layer.geometry.kernel_height
    &&& depthwise.height == input.shape[2]
    &&& depthwise.width == input.shape[3]
    &&& match depthwise.bias {
        Some(values) => layer.bias is Some && values@ == layer.bias->Some_0@.data->F32_0,
        None => layer.bias is None,
    }
}

/// The output of a depthwise layer and one by a single cell carried out together.
pub open spec fn is_fused_separable<F, M: Fn(F, F, F) -> F, A: Fn(F) -> F>(
    arithmetic: &Arithmetic<F, M>,
    activation: Option<&A>,
    depthwise: &Depthwise<F>,
    stage: &Stage<F>,
    input: TensorView<F>,
    result: TensorView<F>,
) -> bool {
    let plane: int = depthwise.plane();
    &&& result.wf()
    &&& result.shape == seq![input.shape[0], stage.rows, input.shape[2], input.shape[3]]
    &&& result.data is F32
    &&& forall|b: int, place: int|
        0 <= b < input.shape[0] && 0 <= place < plane ==> is_separable(
            arithmetic,
            activation,
            depthwise,
            stage,
            row_of(input.data->F32_0, depthwise.channels * plane, b),
            place,
            #[trigger] channels_at(result.data->F32_0, stage.rows as int, plane, b, place),
        )
}

/// The output of two such layers, with their weights and biases.
pub open spec fn is_fused_result<F, M: Fn(F, F, F) -> F, A: Fn(F) -> F>(
    arithmetic: &Arithmetic<F, M>,
    activation: Option<&A>,
    depthwise: Conv2d<F>,
    pointwise: Conv2d<F>,
    input: TensorView<F>,
    result: TensorView<F>,
) -> bool {
    exists|one: &Depthwise<F>, two: &Stage<F>|
        is_depthwise_of(depthwise, input, one) && is_stage_of(pointwise, two)
            && #[trigger] is_fused_separable(arithmetic, activation, one, two, input, result)
}

/// A depthwise layer and a layer by a single cell behind it.
#[verifier::spinoff_prover]
pub fn forward_depthwise_pointwise<F: Copy, M: Fn(F, F, F) -> F, A: Fn(F) -> F>(
    arithmetic: &Arithmetic<F, M>,
    depthwise: &Conv2d<F>,
    pointwise: &Conv2d<F>,
    activation: Option<&A>,
    single_thread: bool,
    platform: Platform,
    input: &Tensor<F>,
) -> (result: Result<Tensor<F>, TensorError>)
    requires
        arithmetic.valid(),
        activation_valid(activation),
        depthwise.wf(),
        pointwise.wf(),
        input@.wf(),
    ensures
        if separable_fits(*depthwise, *pointwise, input@, platform) {
            if !counts(
                seq![
                    input@.shape[0],
                    pointwise.geometry.output_channels,
                    input@.shape[2],
                    input@.shape[3],
                ],
            ) {
                result matches Err(error) && error == TensorError::ShapeOverflow
            } else {
                result matches Ok(tensor) && is_fused_result(
                    arithmetic,
                    activation,
                    *depthwise,
                    *pointwise,
                    input@,
                    tensor@,
                )
            }
        } else {
            exists|middle: Result<TensorView<F>, TensorError>| #[trigger]
                is_forward(
                    *depthwise,
                    arithmetic,
                    None::<&A>,
                    single_thread,
                    input@,
                    middle,
                ) && match middle {
                    Err(error) => view_of(result) == Err::<TensorView<F>, TensorError>(error),
                    Ok(tensor) => is_forward(
                        *pointwise,
                        arithmetic,
                        activation,
                        single_thread,
                        tensor,
                        view_of(result),
                    ),
                }
        },
{
    let shape: &[usize] = input.shape();
    let kernel: usize = depthwise.geometry.kernel_height;
    let channels: usize = depthwise.geometry.output_channels;
    let pads: [usize; 4] = depthwise.geometry.pads;
    if pointwise.geometry.kernel_height == 1 && pointwise.geometry.kernel_width == 1
        && depthwise.geometry.channels_per_group == 1 && kernel == depthwise.geometry.kernel_width
        && (kernel == 3 || kernel == 5 || kernel == 7 || kernel == 9)
        && depthwise.geometry.strides[0] == 1 && depthwise.geometry.strides[1] == 1 && pads[0]
        == kernel / 2 && pads[1] == kernel / 2 && pads[2] == kernel / 2 && pads[3] == kernel / 2
        && depthwise.geometry.groups == channels && input.as_f32().is_ok() && shape.len() == 4
        && shape[0] > 0 && shape[2] > 0 && shape[3] > 0 && shape[1] == channels
        && pointwise.geometry.channels_per_group == channels && shape[2] <= usize::MAX - kernel
        && shape[3] <= usize::MAX - kernel && pointwise.geometry.output_channels <= usize::MAX
        / 16 {
        assert forall|i: int| 0 <= i < 4 implies #[trigger] depthwise.geometry.pads@[i] == kernel
            / 2 by {
            assert(i == 0 || i == 1 || i == 2 || i == 3);
        }
        if let Some(stage) = stage_of(pointwise, platform) {
            assert(separable_fits(*depthwise, *pointwise, input@, platform));
            let batch: usize = shape[0];
            let height: usize = shape[2];
            let width: usize = shape[3];
            let dims: Vec<usize> = vec![batch, stage.rows, height, width];
            assert(dims@ =~= seq![batch, stage.rows, height, width]);
            let total: usize = match element_count(dims.as_slice()) {
                None => {
                    return Err(TensorError::ShapeOverflow);
                },
                Some(total) => total,
            };
            let values: &[F] = match input.as_f32() {
                Err(error) => {
                    return Err(error);
                },
                Ok(values) => values,
            };
            let weight: &[F] = match depthwise.weight.as_f32() {
                Err(error) => {
                    return Err(error);
                },
                Ok(values) => values,
            };
            let bias: Option<&[F]> = match &depthwise.bias {
                Some(tensor) => match tensor.as_f32() {
                    Ok(values) => Some(values),
                    Err(_) => None,
                },
                None => None,
            };
            let one: Depthwise<'_, F> = Depthwise { weight, bias, channels, height, width, kernel };
            proof {
                lemma_wf_count(input@);
                assert(shape@ =~= seq![batch, channels, height, width]);
                lemma_product4(batch, channels, height, width);
                lemma_product4(batch, stage.rows, height, width);
                lemma_product_bounds(dims@);
                assert(1 * kernel * kernel == kernel * kernel) by (nonlinear_arith);
            }
            let mut output: Vec<F> = crate::arena::zeroed(Vec::new(), total, arithmetic.zero);
            run_depthwise_pointwise(
                arithmetic,
                activation,
                &one,
                &stage,
                values,
                &mut output,
                batch,
            );
            let tensor: Tensor<F> = Tensor::new_f32(dims, output);
            proof {
                assert(is_depthwise_of(*depthwise, input@, &one));
                assert(is_stage_of(*pointwise, &stage));
                assert(is_fused_separable(
                    arithmetic,
                    activation,
                    &one,
                    &stage,
                    input@,
                    tensor@,
                ));
                assert(is_fused_result(
                    arithmetic,
                    activation,
                    *depthwise,
                    *pointwise,
                    input@,
                    tensor@,
                ));
            }
            return Ok(tensor);
        }
    }
    proof {
        if separable_fits(*depthwise, *pointwise, input@, platform) {
            assert(depthwise.geometry.pads@[0] == kernel / 2);
            assert(depthwise.geometry.pads@[1] == kernel / 2);
            assert(depthwise.geometry.pads@[2] == kernel / 2);
            assert(depthwise.geometry.pads@[3] == kernel / 2);
        }
        assert(!separable_fits(*depthwise, *pointwise, input@, platform));
    }
    let none: Option<&A> = None;
    let middle: Result<Tensor<F>, TensorError> = depthwise.forward(
        arithmetic,
        none,
        single_thread,
        input,
    );
    let ghost middle_view = view_of(middle);
    assert(is_forward(*depthwise, arithmetic, None::<&A>, single_thread, input@, middle_view));
    match middle {
        Err(error) => Err(error),
        Ok(tensor) => pointwise.forward(arithmetic, activation, single_thread, &tensor),
    }
}

} // verus!
