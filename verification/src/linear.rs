//! Linear layers and layer normalisation.
use vstd::prelude::*;
use crate::accumulate::{activation_valid, fused, Arithmetic};
use crate::conv_plan::use_linear_6x16;
use crate::elementwise::{keeps_length, row_of, row_result, rows_in_place};
use crate::index::{cell_at, lemma_row_bound};
use crate::kernels::{bias_at, linear_right_transposed, linear_terms};
use crate::layout::lemma_wf_count;
use crate::packing::{interleaves, pack_rows};
use crate::shape::{counts, element_count, lemma_product_bounds, product};
use crate::single::Single;
use crate::tensor::{Tensor, TensorError, TensorView};

verus! {

/// A linear layer: weights by output feature, interleaved in groups.
pub struct Linear<F> {
    pub weight: Tensor<F>,
    pub packed: Vec<F>,
    pub input_features: usize,
    pub output_features: usize,
    pub bias: Option<Tensor<F>>,
    /// The number of output features whose weights are interleaved.
    pub weight_block_columns: usize,
}

/// The factor pairs of an output feature of a row.
pub open spec fn feature_terms<F>(
    input: Seq<F>,
    weight: Seq<F>,
    inner: int,
    row: int,
    column: int,
) -> Seq<(F, F)> {
    Seq::new(
        inner as nat,
        |k: int| (input[cell_at(0, inner, row, k)], weight[cell_at(0, inner, column, k)]),
    )
}

/// `output` holds the output features of every row.
pub open spec fn is_linear<F, M: Fn(F, F, F) -> F, A: Fn(F) -> F>(
    arithmetic: &Arithmetic<F, M>,
    activation: Option<&A>,
    input: Seq<F>,
    weight: Seq<F>,
    bias: Option<&[F]>,
    rows: int,
    inner: int,
    columns: int,
    output: Seq<F>,
) -> bool {
    &&& output.len() == rows * columns
    &&& forall|row: int, column: int|
        0 <= row < rows && 0 <= column < columns ==> fused(
            arithmetic.mul_add,
            activation,
            bias_at(arithmetic.zero, bias, column),
            feature_terms(input, weight, inner, row, column),
            #[trigger] output[cell_at(0, columns, row, column)],
        )
}

/// Why a linear layer is refused; `None` where it is not.
pub open spec fn linear_error<F>(weight: TensorView<F>, bias: Option<TensorView<F>>) -> Option<
    TensorError,
> {
    if weight.shape.len() != 2 {
        Some(TensorError::Rank)
    } else if weight.shape[0] == 0 || weight.shape[1] == 0 {
        Some(TensorError::Features)
    } else if bias is Some && bias->Some_0.shape.len() != 1 {
        Some(TensorError::Bias)
    } else if bias is Some && bias->Some_0.data is I64 {
        Some(TensorError::ExpectedF32)
    } else if bias is Some && bias->Some_0.data.len() != weight.shape[0] {
        Some(TensorError::Bias)
    } else if weight.data is I64 {
        Some(TensorError::ExpectedF32)
    } else {
        None
    }
}

impl<F> Linear<F> {
    /// The layer's tensors go with its dimensions, and the interleaved weights
    /// hold what the weights hold.
    pub open spec fn wf(self) -> bool {
        &&& self.weight@.wf()
        &&& self.weight@.data is F32
        &&& self.weight@.shape == seq![self.output_features, self.input_features]
        &&& self.input_features > 0 && self.output_features > 0
        &&& self.weight@.data.len() == self.output_features * self.input_features
        &&& self.weight_block_columns > 0
        &&& interleaves(
            self.packed@,
            self.weight@.data->F32_0,
            self.output_features as int,
            self.input_features as int,
            self.weight_block_columns as int,
        )
        &&& self.bias matches Some(tensor) ==> tensor@.wf() && tensor@.data is F32
            && tensor@.data.len() == self.output_features
    }

    /// The number of rows of an input.
    pub open spec fn rows(self, input: TensorView<F>) -> int {
        product(input.shape.drop_last())
    }

    /// The shape of the output.
    pub open spec fn output_shape(self, input: TensorView<F>) -> Seq<usize> {
        input.shape.drop_last().push(self.output_features)
    }

    /// Why an input is refused; `None` where it is not.
    pub open spec fn input_error(self, input: TensorView<F>) -> Option<TensorError> {
        if input.shape.len() == 0 {
            Some(TensorError::Rank)
        } else if input.shape.last() != self.input_features {
            Some(TensorError::ShapeMismatch)
        } else if !counts(input.shape.drop_last()) {
            Some(TensorError::ShapeOverflow)
        } else if self.rows(input) * self.output_features > usize::MAX {
            Some(TensorError::ShapeOverflow)
        } else if self.rows(input) > 0 && input.data is I64 {
            Some(TensorError::ExpectedF32)
        } else {
            None
        }
    }
}

/// What the layer may give: the output features of every row and, with an
/// operation such as softmax, what that may give for each row of them.
pub open spec fn is_linear_result<
    F,
    M: Fn(F, F, F) -> F,
    A: Fn(F) -> F,
    R: Fn(Vec<F>) -> Vec<F>,
>(
    layer: Linear<F>,
    arithmetic: &Arithmetic<F, M>,
    activation: Option<&A>,
    operation: Option<&R>,
    input: TensorView<F>,
    result: TensorView<F>,
) -> bool {
    let rows = layer.rows(input);
    let columns: int = layer.output_features as int;
    &&& result.wf()
    &&& result.shape == layer.output_shape(input)
    &&& result.data is F32
    &&& result.data.len() == rows * columns
    &&& rows > 0 ==> exists|sums: Seq<F>, bias: Option<&[F]>|
        (match bias {
            Some(values) => layer.bias is Some && values@ == layer.bias->Some_0@.data->F32_0,
            None => layer.bias is None,
        }) && #[trigger] is_linear(
            arithmetic,
            activation,
            input.data->F32_0,
            layer.weight@.data->F32_0,
            bias,
            rows,
            layer.input_features as int,
            columns,
            sums,
        ) && match operation {
            Some(function) => forall|row: int|
                0 <= row < rows ==> row_result(
                    *function,
                    row_of(sums, columns, row),
                    #[trigger] row_of(result.data->F32_0, columns, row),
                ),
            None => result.data->F32_0 == sums,
        }
}

proof fn lemma_two(first: usize, second: usize)
    ensures
        product(seq![first, second]) == first * second,
{
    let shape = seq![first, second];
    let one = shape.drop_last();
    assert(one.drop_last() =~= Seq::<usize>::empty());
    assert(product(one.drop_last()) == 1);
    assert(1 * first == first) by (nonlinear_arith);
    assert(product(one) == first);
}

impl<F: Copy> Linear<F> {
    /// A layer with the given weights, by output feature. On machines with the
    /// wide kernels large classifiers interleave sixteen features, others eight.
    pub fn new(weight: Tensor<F>, bias: Option<Tensor<F>>) -> (result: Result<
        Linear<F>,
        TensorError,
    >)
        requires
            weight@.wf(),
            bias matches Some(tensor) ==> tensor@.wf(),
        ensures
            match result {
                Ok(layer) => {
                    &&& linear_error(weight@, crate::conv_layer::bias_view(bias)) is None
                    &&& layer.wf()
                    &&& layer.weight@ == weight@
                    &&& crate::conv_layer::bias_view(layer.bias)
                        == crate::conv_layer::bias_view(bias)
                    &&& layer.weight_block_columns == if layer.input_features >= 192
                        && layer.output_features >= 4_096 {
                        16int
                    } else {
                        8
                    }
                },
                Err(error) => linear_error(weight@, crate::conv_layer::bias_view(bias)) == Some(
                    error,
                ),
            },
    {
        let shape: &[usize] = weight.shape();
        if shape.len() != 2 {
            return Err(TensorError::Rank);
        }
        let output_features: usize = shape[0];
        let input_features: usize = shape[1];
        if input_features == 0 || output_features == 0 {
            return Err(TensorError::Features);
        }
        if let Some(tensor) = &bias {
            if tensor.rank() != 1 {
                return Err(TensorError::Bias);
            }
            match tensor.as_f32() {
                Err(error) => {
                    return Err(error);
                },
                Ok(values) => {
                    if values.len() != output_features {
                        return Err(TensorError::Bias);
                    }
                },
            }
        }
        let weight_block_columns: usize = if use_linear_6x16(input_features, output_features) {
            16
        } else {
            8
        };
        let values: &[F] = match weight.as_f32() {
            Err(error) => {
                return Err(error);
            },
            Ok(values) => values,
        };
        proof {
            lemma_wf_count(weight@);
            assert(weight@.shape =~= seq![output_features, input_features]);
            lemma_two(output_features, input_features);
            assert(output_features * input_features == input_features * output_features)
                by (nonlinear_arith);
            vstd::arithmetic::div_mod::lemma_mod_multiples_basic(
                input_features as int,
                output_features as int,
            );
            vstd::arithmetic::div_mod::lemma_div_by_multiple(
                input_features as int,
                output_features as int,
            );
        }
        match pack_rows(values, output_features, weight_block_columns) {
            Err(_) => Err(TensorError::Pack),
            Ok(packed) => Ok(
                Linear {
                    weight,
                    packed,
                    input_features,
                    output_features,
                    bias,
                    weight_block_columns,
                },
            ),
        }
    }

    /// Applies the layer to the last dimension of an input; with `operation`,
    /// such as softmax, each row of output features is mapped.
    #[verifier::spinoff_prover]
    pub fn forward<M: Fn(F, F, F) -> F, A: Fn(F) -> F, R: Fn(Vec<F>) -> Vec<F>>(
        &self,
        arithmetic: &Arithmetic<F, M>,
        activation: Option<&A>,
        operation: Option<&R>,
        input: &Tensor<F>,
    ) -> (result: Result<Tensor<F>, TensorError>)
        requires
            self.wf(),
            arithmetic.valid(),
            activation_valid(activation),
            operation matches Some(function) ==> keeps_length(*function),
            input@.wf(),
        ensures
            match result {
                Ok(tensor) => self.input_error(input@) is None && is_linear_result(
                    *self,
                    arithmetic,
                    activation,
                    operation,
                    input@,
                    tensor@,
                ),
                Err(error) => self.input_error(input@) == Some(error),
            },
    {
        let shape: &[usize] = input.shape();
        let rank: usize = shape.len();
        if rank == 0 {
            return Err(TensorError::Rank);
        }
        let inner: usize = self.input_features;
        let columns: usize = self.output_features;
        if shape[rank - 1] != inner {
            return Err(TensorError::ShapeMismatch);
        }
        let head: &[usize] = vstd::slice::slice_subrange(shape, 0, rank - 1);
        assert(head@ =~= shape@.drop_last());
        let rows: usize = match element_count(head) {
            None => {
                return Err(TensorError::ShapeOverflow);
            },
            Some(rows) => rows,
        };
        proof {
            lemma_product_bounds(head@);
            assert(head@.take(head@.len() as int) =~= head@);
        }
        let total: usize = match rows.checked_mul(columns) {
            None => {
                return Err(TensorError::ShapeOverflow);
            },
            Some(total) => total,
        };
        let mut dims: Vec<usize> = vstd::slice::slice_to_vec(head);
        dims.push(columns);
        proof {
            assert(dims@ =~= self.output_shape(input@));
            assert(dims@.drop_last() =~= head@);
            assert(product(dims@) == rows * columns);
            assert forall|k: int| 0 <= k <= dims@.len() implies #[trigger] product(dims@.take(k))
                <= usize::MAX by {
                if k < dims@.len() {
                    assert(dims@.take(k) =~= head@.take(k));
                } else {
                    assert(dims@.take(k) =~= dims@);
                }
            }
        }
        if rows == 0 {
            proof {
                assert(total == 0) by (nonlinear_arith)
                    requires
                        total == rows * columns,
                        rows == 0,
                ;
            }
            return Ok(Tensor::new_f32(dims, Vec::new()));
        }
        let values: &[F] = match input.as_f32() {
            Err(error) => {
                return Err(error);
            },
            Ok(values) => values,
        };
        let bias: Option<&[F]> = match &self.bias {
            Some(tensor) => match tensor.as_f32() {
                Ok(values) => Some(values),
                Err(_) => None,
            },
            None => None,
        };
        proof {
            lemma_wf_count(input@);
            assert(product(input@.shape) == rows * inner);
        }
        let mut output: Vec<F> = crate::arena::zeroed(Vec::new(), total, arithmetic.zero);
        linear_right_transposed(
            arithmetic,
            output.as_mut_slice(),
            values,
            self.packed.as_slice(),
            rows,
            inner,
            columns,
            self.weight_block_columns,
            bias,
            activation,
        );
        let ghost sums = output@;
        proof {
            assert forall|row: int, column: int|
                0 <= row < rows && 0 <= column < columns implies fused(
                arithmetic.mul_add,
                activation,
                bias_at(arithmetic.zero, bias, column),
                feature_terms(values@, self.weight@.data->F32_0, inner as int, row, column),
                #[trigger] sums[cell_at(0, columns as int, row, column)],
            ) by {
                let terms = linear_terms(
                    values@,
                    self.packed@,
                    inner as int,
                    columns as int,
                    self.weight_block_columns as int,
                    row,
                    column,
                );
                assert(terms =~= feature_terms(
                    values@,
                    self.weight@.data->F32_0,
                    inner as int,
                    row,
                    column,
                ));
            }
            assert(is_linear(
                arithmetic,
                activation,
                values@,
                self.weight@.data->F32_0,
                bias,
                rows as int,
                inner as int,
                columns as int,
                sums,
            ));
        }
        if let Some(function) = operation {
            proof {
                vstd::arithmetic::div_mod::lemma_mod_multiples_basic(rows as int, columns as int);
                vstd::arithmetic::div_mod::lemma_div_by_multiple(rows as int, columns as int);
            }
            rows_in_place(output.as_mut_slice(), columns, function);
        }
        let tensor: Tensor<F> = Tensor::new_f32(dims, output);
        proof {
            assert(tensor@.data->F32_0.len() == total);
            match operation {
                Some(function) => {
                    assert forall|row: int| 0 <= row < rows implies row_result(
                        *function,
                        row_of(sums, columns as int, row),
                        #[trigger] row_of(tensor@.data->F32_0, columns as int, row),
                    ) by {}
                },
                None => {},
            }
        }
        Ok(tensor)
    }
}

/// Layer normalisation of rows of features.
pub struct LayerNorm<F> {
    pub weight: Tensor<F>,
    pub bias: Tensor<F>,
    pub epsilon: Single,
}

/// Why a normalisation layer is refused; `None` where it is not.
pub open spec fn norm_error<F>(
    weight: TensorView<F>,
    bias: TensorView<F>,
    epsilon: Single,
) -> Option<TensorError> {
    if weight.data is I64 {
        Some(TensorError::ExpectedF32)
    } else if weight.data.len() == 0 {
        Some(TensorError::Features)
    } else if weight.shape.len() != 1 || bias.shape.len() != 1 {
        Some(TensorError::Bias)
    } else if bias.data is I64 {
        Some(TensorError::ExpectedF32)
    } else if bias.data.len() != weight.data.len() {
        Some(TensorError::Bias)
    } else if epsilon.spec_magnitude() > 0x7f80_0000 || epsilon.rank() < 0 {
        Some(TensorError::Epsilon)
    } else {
        None
    }
}

impl<F> LayerNorm<F> {
    /// Weight and bias are vectors of the same number of features.
    pub open spec fn wf(self) -> bool {
        &&& self.weight@.wf() && self.bias@.wf()
        &&& norm_error(self.weight@, self.bias@, self.epsilon) is None
    }

    /// Why an input is refused; `None` where it is not.
    pub open spec fn input_error(self, input: TensorView<F>) -> Option<TensorError> {
        if input.shape.len() == 0 || input.shape.last() != self.weight@.data.len() {
            Some(TensorError::ShapeMismatch)
        } else if input.data is I64 {
            Some(TensorError::ExpectedF32)
        } else {
            None
        }
    }
}

/// The operation takes every row and keeps its length.
pub open spec fn normalizes<F, N: Fn(Vec<F>, Vec<F>, Vec<F>, Single) -> Vec<F>>(
    operation: N,
) -> bool {
    &&& forall|row: Vec<F>, scale: Vec<F>, offset: Vec<F>, epsilon: Single| #[trigger]
        call_requires(operation, (row, scale, offset, epsilon))
    &&& forall|row: Vec<F>, scale: Vec<F>, offset: Vec<F>, epsilon: Single, result: Vec<F>|
        #[trigger]
        call_ensures(operation, (row, scale, offset, epsilon), result) ==> result@.len()
            == row@.len()
}

/// `after` is a row that the operation may give for the row `before`.
pub open spec fn norm_row_result<F, N: Fn(Vec<F>, Vec<F>, Vec<F>, Single) -> Vec<F>>(
    operation: N,
    weight: Seq<F>,
    bias: Seq<F>,
    epsilon: Single,
    before: Seq<F>,
    after: Seq<F>,
) -> bool {
    exists|row: Vec<F>, scale: Vec<F>, offset: Vec<F>, result: Vec<F>| #[trigger]
        call_ensures(operation, (row, scale, offset, epsilon), result) && row@ == before && scale@
            == weight && offset@ == bias && result@ == after
}

/// What a normalisation layer may give for an input that it does not refuse.
pub open spec fn is_norm_result<F, N: Fn(Vec<F>, Vec<F>, Vec<F>, Single) -> Vec<F>>(
    layer: LayerNorm<F>,
    operation: N,
    input: TensorView<F>,
    output: TensorView<F>,
) -> bool {
    let features = layer.weight@.data.len() as int;
    &&& output.wf()
    &&& output.shape == input.shape
    &&& output.data is F32
    &&& output.data.len() == input.data.len()
    &&& forall|row: int|
        0 <= row < input.data.len() as int / features ==> norm_row_result(
            operation,
            layer.weight@.data->F32_0,
            layer.bias@.data->F32_0,
            layer.epsilon,
            row_of(input.data->F32_0, features, row),
            #[trigger] row_of(output.data->F32_0, features, row),
        )
}

impl<F: Copy> LayerNorm<F> {
    /// A layer with the given scale and offset of each feature.
    pub fn new(weight: Tensor<F>, bias: Tensor<F>, epsilon: Single) -> (result: Result<
        LayerNorm<F>,
        TensorError,
    >)
        requires
            weight@.wf(),
            bias@.wf(),
        ensures
            match result {
                Ok(layer) => norm_error(weight@, bias@, epsilon) is None && layer.wf()
                    && layer.weight@ == weight@ && layer.bias@ == bias@ && layer.epsilon
                    == epsilon,
                Err(error) => norm_error(weight@, bias@, epsilon) == Some(error),
            },
    {
        let features: usize = match weight.as_f32() {
            Err(error) => {
                return Err(error);
            },
            Ok(values) => values.len(),
        };
        if features == 0 {
            return Err(TensorError::Features);
        }
        if weight.rank() != 1 || bias.rank() != 1 {
            return Err(TensorError::Bias);
        }
        match bias.as_f32() {
            Err(error) => {
                return Err(error);
            },
            Ok(values) => {
                if values.len() != features {
                    return Err(TensorError::Bias);
                }
            },
        }
        if epsilon.bits % 0x8000_0000 > 0x7f80_0000 || epsilon.place() < 0 {
            return Err(TensorError::Epsilon);
        }
        Ok(LayerNorm { weight, bias, epsilon })
    }

    /// Maps each row of features of an input. `operation` normalises one row
    /// with a scale and an offset of each feature and an epsilon.
    pub fn forward<N: Fn(Vec<F>, Vec<F>, Vec<F>, Single) -> Vec<F>>(
        &self,
        operation: &N,
        input: &Tensor<F>,
    ) -> (result: Result<Tensor<F>, TensorError>)
        requires
            self.wf(),
            normalizes(*operation),
            input@.wf(),
        ensures
            match result {
                Ok(tensor) => self.input_error(input@) is None && is_norm_result(
                    *self,
                    *operation,
                    input@,
                    tensor@,
                ),
                Err(error) => self.input_error(input@) == Some(error),
            },
    {
        let features: usize = self.weight.len();
        let shape: &[usize] = input.shape();
        let rank: usize = shape.len();
        if rank == 0 || shape[rank - 1] != features {
            return Err(TensorError::ShapeMismatch);
        }
        let values: &[F] = match input.as_f32() {
            Err(error) => {
                return Err(error);
            },
            Ok(values) => values,
        };
        let weight: &[F] = match self.weight.as_f32() {
            Err(error) => {
                return Err(error);
            },
            Ok(values) => values,
        };
        let bias: &[F] = match self.bias.as_f32() {
            Err(error) => {
                return Err(error);
            },
            Ok(values) => values,
        };
        let mut output: Vec<F> = Vec::with_capacity(values.len());
        let length: usize = values.len();
        let rows: usize = length / features;
        proof {
            lemma_wf_count(input@);
            vstd::arithmetic::div_mod::lemma_mod_multiples_basic(
                product(shape@.drop_last()),
                features as int,
            );
            vstd::arithmetic::div_mod::lemma_fundamental_div_mod(
                values@.len() as int,
                features as int,
            );
            assert(features * rows == rows * features) by (nonlinear_arith);
            assert(0 * features == 0);
        }
        for row in 0..rows
            invariant
                features > 0,
                values@.len() == rows * features,
                values@.len() <= usize::MAX,
                weight@.len() == features,
                normalizes(*operation),
                output@.len() == row * features,
                forall|r: int|
                    0 <= r < row ==> norm_row_result(
                        *operation,
                        weight@,
                        bias@,
                        self.epsilon,
                        row_of(values@, features as int, r),
                        #[trigger] row_of(output@, features as int, r),
                    ),
        {
            proof {
                lemma_row_bound(row as int, rows as int, 0, features as int);
            }
            let start: usize = row * features;
            let source: Vec<F> = vstd::slice::slice_to_vec(
                vstd::slice::slice_subrange(values, start, start + features),
            );
            let scale: Vec<F> = vstd::slice::slice_to_vec(weight);
            let offset: Vec<F> = vstd::slice::slice_to_vec(bias);
            assert(source@ =~= row_of(values@, features as int, row as int));
            let mut after: Vec<F> = operation(source, scale, offset, self.epsilon);
            let ghost given = after@;
            assert(norm_row_result(
                *operation,
                weight@,
                bias@,
                self.epsilon,
                row_of(values@, features as int, row as int),
                given,
            ));
            let ghost earlier = output@;
            output.append(&mut after);
            proof {
                assert((row + 1) * features == row * features + features) by (nonlinear_arith);
                assert(output@ =~= earlier + given);
                assert forall|r: int| 0 <= r < row + 1 implies norm_row_result(
                    *operation,
                    weight@,
                    bias@,
                    self.epsilon,
                    row_of(values@, features as int, r),
                    #[trigger] row_of(output@, features as int, r),
                ) by {
                    if r < row {
                        lemma_row_bound(r, row as int, 0, features as int);
                        assert(row_of(output@, features as int, r) =~= row_of(
                            earlier,
                            features as int,
                            r,
                        ));
                    } else {
                        assert(row_of(output@, features as int, r) =~= given);
                    }
                }
            }
        }
        Ok(Tensor::new_f32(vstd::slice::slice_to_vec(shape), output))
    }
}

} // verus!
