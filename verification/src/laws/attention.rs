//! The law of attention: what each column of a line takes from the others.
use vstd::prelude::*;
use crate::accumulate::Arithmetic;
use crate::functions::{exchanged, part_at, permuted, reshaped, Activation, Functions, Seen};
use crate::index::lemma_row_bound;
use crate::laws::{folded, maps_row};
use crate::laws::tensors::{
    lemma_place_bound, lemma_product_value, lemma_reshaped_values, lemma_taken_value,
    lemma_transposed_value, lies_in, place_in, spread_at,
};
use crate::layout::{lemma_counts, lemma_wf_count};
use crate::linear::{is_linear_result, Linear};
use crate::network::RecAttention;
use crate::shape::{lemma_product_bounds, product};
use crate::single::Single;
use crate::tensor::{DataView, TensorError, TensorView};

verus! {

/// The place of a feature of a token.
pub open spec fn token_cell(tokens: int, features: int, batch: int, token: int, feature: int) -> int {
    (batch * tokens + token) * features + feature
}

/// The place of a value of a head for a token.
pub open spec fn head_cell(
    heads: int,
    tokens: int,
    size: int,
    batch: int,
    head: int,
    token: int,
    value: int,
) -> int {
    ((batch * heads + head) * tokens + token) * size + value
}

/// Whether a value is an output of a linear layer: the bias of the feature, with the
/// values of the row times the weights of the feature folded in.
pub open spec fn is_feature<F, M: Fn(F, F, F) -> F>(
    layer: Linear<F>,
    arithmetic: &Arithmetic<F, M>,
    input: Seq<F>,
    row: int,
    feature: int,
    value: F,
) -> bool {
    let inner = layer.input_features as int;
    folded(
        arithmetic.mul_add,
        match layer.bias {
            Some(tensor) => tensor@.data->F32_0[feature],
            None => arithmetic.zero,
        },
        Seq::new(
            inner as nat,
            |k: int|
                (input[row * inner + k], layer.weight@.data->F32_0[feature * inner + k]),
        ),
        value,
    )
}

/// What a linear layer without an activation is for: each value of the result is the
/// bias of its feature with the values of its row, times the weights of its feature,
/// folded in.
pub proof fn lemma_linear_value<
    F,
    M: Fn(F, F, F) -> F,
    A: Fn(F) -> F,
    R: Fn(Vec<F>) -> Vec<F>,
>(
    layer: Linear<F>,
    arithmetic: &Arithmetic<F, M>,
    operation: Option<&R>,
    input: TensorView<F>,
    result: TensorView<F>,
    activation: Option<&A>,
    row: int,
    feature: int,
)
    requires
        layer.wf(),
        operation is None,
        activation is None,
        is_linear_result(layer, arithmetic, activation, operation, input, result),
        0 <= row < product(input.shape.drop_last()),
        0 <= feature < layer.output_features,
    ensures
        result.data is F32,
        result.shape == input.shape.drop_last().push(layer.output_features),
        is_feature(
            layer,
            arithmetic,
            input.data->F32_0,
            row,
            feature,
            result.data->F32_0[row * layer.output_features + feature],
        ),
{
    let rows = layer.rows(input);
    let columns = layer.output_features as int;
    let inner = layer.input_features as int;
    let (sums, bias) = choose|sums: Seq<F>, bias: Option<&[F]>|
        (match bias {
            Some(values) => layer.bias is Some && values@ == layer.bias->Some_0@.data->F32_0,
            None => layer.bias is None,
        }) && #[trigger] crate::linear::is_linear(
            arithmetic,
            activation,
            input.data->F32_0,
            layer.weight@.data->F32_0,
            bias,
            rows,
            inner,
            columns,
            sums,
        ) && result.data->F32_0 == sums;
    let cell = crate::index::cell_at(0, columns, row, feature);
    let value = sums[cell];
    let terms = crate::linear::feature_terms(
        input.data->F32_0,
        layer.weight@.data->F32_0,
        inner,
        row,
        feature,
    );
    let start = crate::kernels::bias_at(arithmetic.zero, bias, feature);
    assert(crate::accumulate::fused(arithmetic.mul_add, activation, start, terms, value));
    crate::laws::lemma_folded(arithmetic.mul_add, start, terms, value);
    assert(terms =~= Seq::new(
        inner as nat,
        |k: int|
            (
                input.data->F32_0[row * inner + k],
                layer.weight@.data->F32_0[feature * inner + k],
            ),
    ));
}

proof fn lemma_place_push(shape: Seq<usize>, at: Seq<int>, size: usize, index: int)
    ensures
        place_in(shape.push(size), at.push(index)) == place_in(shape, at) * size + index,
{
    assert(shape.push(size).drop_last() =~= shape);
    assert(at.push(index).drop_last() =~= at);
}

proof fn lemma_place_two(a: usize, b: usize, i: int, j: int)
    ensures
        place_in(seq![a, b], seq![i, j]) == i * b + j,
        product(seq![a, b]) == a * b,
{
    lemma_place_push(Seq::empty(), Seq::empty(), a, i);
    lemma_place_push(seq![a], seq![i], b, j);
    assert(Seq::<usize>::empty().push(a) =~= seq![a]);
    assert(Seq::<int>::empty().push(i) =~= seq![i]);
    assert(seq![a].push(b) =~= seq![a, b]);
    assert(seq![i].push(j) =~= seq![i, j]);
    assert(0 * a == 0);
    assert(seq![a, b].drop_last() =~= seq![a]);
    assert(seq![a].drop_last() =~= Seq::<usize>::empty());
    assert(product(Seq::<usize>::empty()) == 1);
    assert(1 * a == a);
    assert(seq![a].last() == a && seq![a, b].last() == b);
    assert(product(seq![a]) == 1 * a);
    assert(product(seq![a, b]) == product(seq![a]) * b);
}

proof fn lemma_place_four(shape: Seq<usize>, at: Seq<int>)
    requires
        shape.len() == 4,
        at.len() == 4,
    ensures
        place_in(shape, at) == ((at[0] * shape[1] + at[1]) * shape[2] + at[2]) * shape[3] + at[3],
        product(shape) == shape[0] * shape[1] * shape[2] * shape[3],
{
    lemma_place_two(shape[0], shape[1], at[0], at[1]);
    let two = seq![shape[0], shape[1]];
    let pair = seq![at[0], at[1]];
    lemma_place_push(two, pair, shape[2], at[2]);
    lemma_place_push(two.push(shape[2]), pair.push(at[2]), shape[3], at[3]);
    assert(two.push(shape[2]).push(shape[3]) =~= shape);
    assert(pair.push(at[2]).push(at[3]) =~= at);
    assert(shape.drop_last() =~= two.push(shape[2]));
    assert(two.push(shape[2]).drop_last() =~= two);
    assert(two.push(shape[2]).last() == shape[2]);
    assert(product(two.push(shape[2])) == product(two) * shape[2]);
    assert(product(shape) == product(two.push(shape[2])) * shape[3]);
}

proof fn lemma_place_five(shape: Seq<usize>, at: Seq<int>)
    requires
        shape.len() == 5,
        at.len() == 5,
    ensures
        place_in(shape, at) == (((at[0] * shape[1] + at[1]) * shape[2] + at[2]) * shape[3] + at[3])
            * shape[4] + at[4],
        product(shape) == shape[0] * shape[1] * shape[2] * shape[3] * shape[4],
{
    let four = shape.drop_last();
    let before = at.drop_last();
    lemma_place_four(four, before);
    lemma_place_push(four, before, shape[4], at[4]);
    assert(four.push(shape[4]) =~= shape);
    assert(before.push(at[4]) =~= at);
}

/// A shape of positive dimensions with as many elements as another tensor has values.
proof fn lemma_sound_shape(tensor: TensorView<Single>, count: int)
    requires
        forall|d: int| 0 <= d < tensor.shape.len() ==> #[trigger] tensor.shape[d] > 0,
        product(tensor.shape) == count,
        tensor.data.len() == count,
        count <= usize::MAX,
    ensures
        tensor.wf(),
{
    lemma_counts(tensor.shape);
}

/// The queries, keys or values of the heads: those of part `index` of three.
proof fn lemma_head_values(
    mixed: TensorView<Single>,
    batch: usize,
    tokens: usize,
    heads: usize,
    size: usize,
    index: int,
    part: TensorView<Single>,
)
    requires
        mixed.wf(),
        mixed.data is F32,
        batch > 0 && tokens > 0 && heads > 0 && size > 0,
        0 <= index < 3,
        part_at(
            permuted(
                reshaped(Ok(mixed), seq![batch, tokens, 3usize, heads, size]),
                seq![2usize, 0usize, 3usize, 1usize, 4usize],
            ),
            index,
        ) == Ok::<TensorView<Single>, TensorError>(part),
    ensures
        part.wf(),
        part.data is F32,
        part.shape == seq![batch, heads, tokens, size],
        forall|b: int, h: int, t: int, d: int|
            0 <= b < batch && 0 <= h < heads && 0 <= t < tokens && 0 <= d < size
                ==> #[trigger] part.data->F32_0[head_cell(
                heads as int,
                tokens as int,
                size as int,
                b,
                h,
                t,
                d,
            )] == mixed.data->F32_0[token_cell(
                tokens as int,
                3 * (heads * size),
                b,
                t,
                index * (heads * size) + (h * size + d),
            )],
{
    let asked = seq![batch, tokens, 3usize, heads, size];
    let order = seq![2usize, 0usize, 3usize, 1usize, 4usize];
    let spread = crate::tensor_ops::reshape_of(mixed, asked)->Ok_0;
    lemma_reshaped_values(mixed, asked, spread);
    assert(spread.wf()) by {
        lemma_wf_count(mixed);
        lemma_sound_shape(spread, product(asked));
    }
    let moved = crate::layout::transposed(spread, order);
    assert(crate::layout::transpose_result(seq![spread], order) == Ok::<
        TensorView<Single>,
        TensorError,
    >(moved)) by {
        assert(seq![spread][0] == spread);
    }
    let turned = seq![3usize, batch, heads, tokens, size];
    assert(crate::permutation::reordered(spread.shape, order) =~= turned);
    lemma_place_five(asked, seq![0int, 0int, 0int, 0int, 0int]);
    lemma_place_five(turned, seq![0int, 0int, 0int, 0int, 0int]);
    let total = product(asked);
    assert(batch * tokens * 3 * heads * size == 3 * batch * heads * tokens * size)
        by (nonlinear_arith);
    assert(moved.shape == turned && moved.data.len() == total);
    lemma_wf_count(spread);
    lemma_sound_shape(moved, total);
    // The part of the first dimension.
    let ranges = crate::slicing::narrow_ranges(turned, 0, index, 1);
    let cut = crate::slicing::taken(moved, ranges);
    let kept = seq![1usize, batch, heads, tokens, size];
    assert(crate::slicing::range_shape(ranges) =~= kept) by {
        assert forall|d: int| 0 <= d < 5 implies crate::slicing::range_shape(ranges)[d]
            == kept[d] by {
            let range = ranges[d];
            assert(range.step == 1);
            assert((range.end - range.start + 1 - 1) / 1 == range.end - range.start);
        }
    }
    assert(crate::slicing::narrowed(moved, 0, index, 1) == Ok::<TensorView<Single>, TensorError>(
        cut,
    ));
    // Without that dimension.
    let shape = seq![batch, heads, tokens, size];
    lemma_first_squeezed(cut, batch, heads, tokens, size);
    assert(part.shape == shape && part.data == cut.data);
    lemma_place_four(shape, seq![0int, 0int, 0int, 0int]);
    lemma_place_five(kept, seq![0int, 0int, 0int, 0int, 0int]);
    assert(1 * batch * heads * tokens * size == batch * heads * tokens * size) by (nonlinear_arith);
    let count = product(shape);
    assert(3 * count == total) by (nonlinear_arith)
        requires
            count == batch * heads * tokens * size,
            total == 3 * batch * heads * tokens * size,
    ;
    lemma_product_bounds(shape);
    assert(part.data.len() == count);
    lemma_sound_shape(part, count);
    assert forall|b: int, h: int, t: int, d: int|
        0 <= b < batch && 0 <= h < heads && 0 <= t < tokens && 0 <= d
            < size implies #[trigger] part.data->F32_0[head_cell(
        heads as int,
        tokens as int,
        size as int,
        b,
        h,
        t,
        d,
    )] == mixed.data->F32_0[token_cell(
        tokens as int,
        3 * (heads * size),
        b,
        t,
        index * (heads * size) + (h * size + d),
    )] by {
        let at = seq![b, t, index, h, d];
        let there = seq![index, b, h, t, d];
        let here = seq![0int, b, h, t, d];
        lemma_transposed_value(spread, order, at);
        assert(Seq::new(order.len(), |e: int| at[order[e] as int]) =~= there);
        assert forall|e: int| 0 <= e < 5 implies 0 <= #[trigger] here[e] && ranges[e].start
            + here[e] * ranges[e].step < ranges[e].end && ranges[e].start + here[e]
            * ranges[e].step == there[e] by {
            assert(ranges[e].step == 1);
            assert(here[e] * 1 == here[e]);
            assert(e == 0 || e == 1 || e == 2 || e == 3 || e == 4);
        }
        lemma_taken_value(moved, ranges, here);
        assert(Seq::new(ranges.len(), |e: int| ranges[e].start + here[e] * ranges[e].step)
            =~= there);
        lemma_place_five(asked, at);
        lemma_place_five(kept, here);
        lemma_place_four(shape, seq![b, h, t, d]);
        assert(0 * batch == 0);
        assert((((b * tokens + t) * 3 + index) * heads + h) * size + d == (b * tokens + t) * (3 * (
        heads * size)) + (index * (heads * size) + (h * size + d))) by (nonlinear_arith);
    }
}

/// A first dimension of one is left out.
proof fn lemma_first_squeezed(
    input: TensorView<Single>,
    first: usize,
    second: usize,
    third: usize,
    fourth: usize,
)
    requires
        input.shape == seq![1usize, first, second, third, fourth],
    ensures
        crate::reshape::squeezed(input, seq![0i64]) == Ok::<TensorView<Single>, TensorError>(
            TensorView { shape: seq![first, second, third, fourth], data: input.data },
        ),
{
    let axes = seq![0i64];
    reveal_with_fuel(crate::layout::axes_of, 2);
    assert(axes.drop_last() =~= Seq::<i64>::empty());
    let dimensions = seq![0usize];
    assert(crate::layout::axes_of(axes, 5)->Ok_0 =~= dimensions);
    let marked = crate::reshape::marks(dimensions, 5);
    assert(dimensions[0] == 0);
    assert(marked[0]) by {
        assert(dimensions.contains(0usize));
    }
    assert forall|d: int| 1 <= d < 5 implies !#[trigger] marked[d] by {
        if dimensions.contains(d as usize) {
            let i = choose|i: int| 0 <= i < dimensions.len() && dimensions[i] == d as usize;
        }
    }
    reveal_with_fuel(crate::reshape::without_marked, 6);
    assert(crate::reshape::without_marked(input.shape, marked, 5) =~= seq![
        first,
        second,
        third,
        fourth,
    ]);
    assert forall|i: int| 0 <= i < dimensions.len() implies input.shape[
    #[trigger] dimensions[i] as int] == 1 by {}
}

/// The last two of four dimensions exchanged.
proof fn lemma_turned(input: TensorView<Single>, output: TensorView<Single>, first: int, second: int)
    requires
        input.wf(),
        input.data is F32,
        input.shape.len() == 4,
        forall|d: int| 0 <= d < 4 ==> #[trigger] input.shape[d] > 0,
        first == 2 && second == 3 || first == 1 && second == 2,
        exchanged(Ok(input), first, second) == Ok::<TensorView<Single>, TensorError>(output),
    ensures
        output.wf(),
        output.data is F32,
        output.shape == input.shape.update(first, input.shape[second]).update(
            second,
            input.shape[first],
        ),
        forall|at: Seq<int>| #[trigger]
            lies_in(input.shape, at) ==> {
                let moved = at.update(first, at[second]).update(second, at[first]);
                lies_in(output.shape, moved) && output.data->F32_0[place_in(output.shape, moved)]
                    == input.data->F32_0[place_in(input.shape, at)]
            },
{
    let order = crate::tensor_ops::swapped_order(4, first, second);
    assert(seq![input][0] == input);
    assert(output == crate::layout::transposed(input, order));
    assert(crate::permutation::is_permutation(order, 4));
    crate::permutation::lemma_product_reordered(input.shape, order);
    let shape = input.shape.update(first, input.shape[second]).update(second, input.shape[first]);
    assert(crate::permutation::reordered(input.shape, order) =~= shape);
    lemma_wf_count(input);
    assert forall|d: int| 0 <= d < 4 implies #[trigger] output.shape[d] > 0 by {
        assert(input.shape[order[d] as int] > 0);
    }
    lemma_sound_shape(output, product(input.shape));
    assert forall|at: Seq<int>| #[trigger] lies_in(input.shape, at) implies {
        let moved = at.update(first, at[second]).update(second, at[first]);
        lies_in(output.shape, moved) && output.data->F32_0[place_in(output.shape, moved)]
            == input.data->F32_0[place_in(input.shape, at)]
    } by {
        lemma_transposed_value(input, order, at);
        assert(Seq::new(order.len(), |e: int| at[order[e] as int]) =~= at.update(
            first,
            at[second],
        ).update(second, at[first]));
    }
}

/// The row of scores of a head for a token.
pub open spec fn head_row(heads: int, tokens: int, batch: int, head: int, token: int) -> int {
    (batch * heads + head) * tokens + token
}

proof fn lemma_same_spread(batch: usize, heads: usize, b: int, h: int)
    requires
        0 <= b < batch,
        0 <= h < heads,
    ensures
        spread_at(seq![batch, heads], seq![b, h]) == seq![b, h],
        lies_in(seq![batch, heads], seq![b, h]),
        place_in(seq![batch, heads], seq![b, h]) == b * heads + h,
{
    assert(spread_at(seq![batch, heads], seq![b, h]) =~= seq![b, h]);
    lemma_place_two(batch, heads, b, h);
}

proof fn lemma_score_values<M: Fn(Single, Single, Single) -> Single, A: Fn(Single) -> Single>(
    arithmetic: &Arithmetic<Single, M>,
    activation: Option<&A>,
    mixed: Seq<Single>,
    query: TensorView<Single>,
    key: TensorView<Single>,
    turned: TensorView<Single>,
    scores: TensorView<Single>,
    batch: int,
    tokens: int,
    heads: int,
    size: int,
    hidden: int,
)
    requires
        0 < batch <= usize::MAX && 0 < tokens <= usize::MAX && 0 < heads <= usize::MAX,
        0 < size <= usize::MAX,
        activation is None,
        query.wf() && key.wf() && turned.wf(),
        query.shape == seq![batch as usize, heads as usize, tokens as usize, size as usize],
        key.shape == query.shape,
        turned.shape == seq![batch as usize, heads as usize, size as usize, tokens as usize],
        scores.shape == seq![batch as usize, heads as usize, tokens as usize, tokens as usize],
        crate::matmul::matmul_error(seq![query, turned], None) is None,
        crate::matmul::is_matmul(arithmetic, activation, query, turned, scores),
        forall|at: Seq<int>| #[trigger]
            lies_in(key.shape, at) ==> {
                let moved = at.update(2, at[3]).update(3, at[2]);
                lies_in(turned.shape, moved) && turned.data->F32_0[place_in(turned.shape, moved)]
                    == key.data->F32_0[place_in(key.shape, at)]
            },
        forall|b: int, h: int, t: int, d: int|
            0 <= b < batch && 0 <= h < heads && 0 <= t < tokens && 0 <= d < size ==> {
                &&& #[trigger] query.data->F32_0[head_cell(
                    heads,
                    tokens,
                    size,
                    b,
                    h,
                    t,
                    d,
                )] == mixed[token_cell(tokens, 3 * hidden, b, t, h * size + d)]
                &&& key.data->F32_0[head_cell(heads, tokens, size, b, h, t, d)]
                    == mixed[token_cell(tokens, 3 * hidden, b, t, hidden + (h * size + d))]
            },
    ensures
        forall|b: int, h: int, t: int, s: int|
            0 <= b < batch && 0 <= h < heads && 0 <= t < tokens && 0 <= s < tokens ==> folded(
                arithmetic.mul_add,
                arithmetic.zero,
                Seq::new(
                    size as nat,
                    |d: int|
                        (
                            mixed[token_cell(tokens, 3 * hidden, b, t, h * size + d)],
                            mixed[token_cell(
                                tokens,
                                3 * hidden,
                                b,
                                s,
                                hidden + (h * size + d),
                            )],
                        ),
                ),
                #[trigger] scores.data->F32_0[head_cell(
                    heads,
                    tokens,
                    tokens,
                    b,
                    h,
                    t,
                    s,
                )],
            ),
{
    let pair = seq![batch as usize, heads as usize];
    assert forall|b: int, h: int, t: int, s: int|
        0 <= b < batch && 0 <= h < heads && 0 <= t < tokens && 0 <= s < tokens implies folded(
        arithmetic.mul_add,
        arithmetic.zero,
        Seq::new(
            size as nat,
            |d: int|
                (
                    mixed[token_cell(tokens, 3 * hidden, b, t, h * size + d)],
                    mixed[token_cell(tokens, 3 * hidden, b, s, hidden + (h * size + d))],
                ),
        ),
        #[trigger] scores.data->F32_0[head_cell(
            heads,
            tokens,
            tokens,
            b,
            h,
            t,
            s,
        )],
    ) by {
        lemma_same_spread(batch as usize, heads as usize, b, h);
        assert(scores.shape.take(2) =~= pair);
        assert(query.shape.take(2) =~= pair);
        assert(turned.shape.take(2) =~= pair);
        let sum = lemma_product_value(
            arithmetic,
            activation,
            query,
            turned,
            scores,
            seq![b, h],
            t,
            s,
        );
        let whole = b * heads + h;
        let found = Seq::new(
            size as nat,
            |d: int|
                (
                    query.data->F32_0[(whole * tokens + t) * size + d],
                    turned.data->F32_0[(whole * size + d) * tokens + s],
                ),
        );
        let inner = query.shape[3] as int;
        let rows = scores.shape[2] as int;
        let columns = scores.shape[3] as int;
        let given = Seq::new(
            inner as nat,
            |k: int|
                (
                    query.data->F32_0[(whole * rows + t) * inner + k],
                    turned.data->F32_0[(whole * inner + k) * columns + s],
                ),
        );
        assert(folded(arithmetic.mul_add, arithmetic.zero, given, sum));
        assert(given =~= found);
        let wanted = Seq::new(
            size as nat,
            |d: int|
                (
                    mixed[token_cell(tokens, 3 * hidden, b, t, h * size + d)],
                    mixed[token_cell(tokens, 3 * hidden, b, s, hidden + (h * size + d))],
                ),
        );
        assert forall|d: int| 0 <= d < size implies found[d] == wanted[d] by {
            let at = seq![b, h, s, d];
            assert(lies_in(key.shape, at));
            let there = at.update(2, at[3]).update(3, at[2]);
            assert(there =~= seq![b, h, d, s]);
            lemma_place_four(key.shape, at);
            lemma_place_four(turned.shape, there);
            assert(query.data->F32_0[head_cell(heads, tokens, size, b, h, t, d)]
                == wanted[d].0);
            let same = query.data->F32_0[head_cell(heads, tokens, size, b, h, s, d)];
            assert(key.data->F32_0[head_cell(heads, tokens, size, b, h, s, d)]
                == wanted[d].1);
        }
        assert(found =~= wanted);
    }
}

proof fn lemma_given_values<M: Fn(Single, Single, Single) -> Single, A: Fn(Single) -> Single>(
    arithmetic: &Arithmetic<Single, M>,
    activation: Option<&A>,
    mixed: Seq<Single>,
    weights: TensorView<Single>,
    value: TensorView<Single>,
    context: TensorView<Single>,
    apart: TensorView<Single>,
    batch: int,
    tokens: int,
    heads: int,
    size: int,
    hidden: int,
)
    requires
        0 < batch <= usize::MAX && 0 < tokens <= usize::MAX && 0 < heads <= usize::MAX,
        0 < size <= usize::MAX,
        activation is None,
        weights.wf() && value.wf(),
        weights.shape == seq![batch as usize, heads as usize, tokens as usize, tokens as usize],
        value.shape == seq![batch as usize, heads as usize, tokens as usize, size as usize],
        context.shape == value.shape,
        apart.shape == seq![batch as usize, tokens as usize, heads as usize, size as usize],
        crate::matmul::matmul_error(seq![weights, value], None) is None,
        crate::matmul::is_matmul(arithmetic, activation, weights, value, context),
        forall|at: Seq<int>| #[trigger]
            lies_in(context.shape, at) ==> {
                let moved = at.update(1, at[2]).update(2, at[1]);
                lies_in(apart.shape, moved) && apart.data->F32_0[place_in(apart.shape, moved)]
                    == context.data->F32_0[place_in(context.shape, at)]
            },
        forall|b: int, h: int, t: int, d: int|
            0 <= b < batch && 0 <= h < heads && 0 <= t < tokens && 0 <= d < size
                ==> #[trigger] value.data->F32_0[head_cell(
                heads,
                tokens,
                size,
                b,
                h,
                t,
                d,
            )] == mixed[token_cell(tokens, 3 * hidden, b, t, 2 * hidden + (h * size + d))],
    ensures
        forall|b: int, t: int, h: int, d: int|
            0 <= b < batch && 0 <= t < tokens && 0 <= h < heads && 0 <= d < size ==> folded(
                arithmetic.mul_add,
                arithmetic.zero,
                Seq::new(
                    tokens as nat,
                    |s: int|
                        (
                            weights.data->F32_0[head_cell(
                                heads,
                                tokens,
                                tokens,
                                b,
                                h,
                                t,
                                s,
                            )],
                            mixed[token_cell(
                                tokens,
                                3 * hidden,
                                b,
                                s,
                                2 * hidden + (h * size + d),
                            )],
                        ),
                ),
                #[trigger] apart.data->F32_0[head_cell(
                    tokens,
                    heads,
                    size,
                    b,
                    t,
                    h,
                    d,
                )],
            ),
{
    let pair = seq![batch as usize, heads as usize];
    assert forall|b: int, t: int, h: int, d: int|
        0 <= b < batch && 0 <= t < tokens && 0 <= h < heads && 0 <= d < size implies folded(
        arithmetic.mul_add,
        arithmetic.zero,
        Seq::new(
            tokens as nat,
            |s: int|
                (
                    weights.data->F32_0[head_cell(
                        heads,
                        tokens,
                        tokens,
                        b,
                        h,
                        t,
                        s,
                    )],
                    mixed[token_cell(
                        tokens,
                        3 * hidden,
                        b,
                        s,
                        2 * hidden + (h * size + d),
                    )],
                ),
        ),
        #[trigger] apart.data->F32_0[head_cell(tokens, heads, size, b, t, h, d)],
    ) by {
        lemma_same_spread(batch as usize, heads as usize, b, h);
        assert(context.shape.take(2) =~= pair);
        assert(weights.shape.take(2) =~= pair);
        assert(value.shape.take(2) =~= pair);
        let sum = lemma_product_value(
            arithmetic,
            activation,
            weights,
            value,
            context,
            seq![b, h],
            t,
            d,
        );
        let whole = b * heads + h;
        let found = Seq::new(
            tokens as nat,
            |s: int|
                (
                    weights.data->F32_0[(whole * tokens + t) * tokens + s],
                    value.data->F32_0[(whole * tokens + s) * size + d],
                ),
        );
        let inner = weights.shape[3] as int;
        let rows = context.shape[2] as int;
        let columns = context.shape[3] as int;
        let given = Seq::new(
            inner as nat,
            |k: int|
                (
                    weights.data->F32_0[(whole * rows + t) * inner + k],
                    value.data->F32_0[(whole * inner + k) * columns + d],
                ),
        );
        assert(folded(arithmetic.mul_add, arithmetic.zero, given, sum));
        assert(given =~= found);
        let wanted = Seq::new(
            tokens as nat,
            |s: int|
                (
                    weights.data->F32_0[head_cell(
                        heads,
                        tokens,
                        tokens,
                        b,
                        h,
                        t,
                        s,
                    )],
                    mixed[token_cell(
                        tokens,
                        3 * hidden,
                        b,
                        s,
                        2 * hidden + (h * size + d),
                    )],
                ),
        );
        assert forall|s: int| 0 <= s < tokens implies found[s] == wanted[s] by {
            assert(value.data->F32_0[head_cell(heads, tokens, size, b, h, s, d)]
                == wanted[s].1);
        }
        assert(found =~= wanted);
        let at = seq![b, h, t, d];
        assert(lies_in(context.shape, at));
        let there = at.update(1, at[2]).update(2, at[1]);
        assert(there =~= seq![b, t, h, d]);
        lemma_place_four(context.shape, at);
        lemma_place_four(apart.shape, there);
    }
}

/// The tensors that attention goes through.
struct Stages {
    mixed: TensorView<Single>,
    factor: Single,
    query: TensorView<Single>,
    key: TensorView<Single>,
    turned: TensorView<Single>,
    value: TensorView<Single>,
    scores: TensorView<Single>,
    scaled: TensorView<Single>,
    weights: TensorView<Single>,
    context: TensorView<Single>,
    apart: TensorView<Single>,
    lines: TensorView<Single>,
}

/// The tensors that attention goes through, with their shapes.
proof fn lemma_attention_stages<
    M: Fn(Single, Single, Single) -> Single,
    U: Fn(Single) -> Single,
    B: Fn(Single, Single) -> Single,
    R: Fn(Vec<Single>) -> Vec<Single>,
    N: Fn(Vec<Single>, Vec<Single>, Vec<Single>, Single) -> Vec<Single>,
    D: Fn(Vec<Single>) -> Single,
    P: Fn(Vec<Single>, usize) -> Single,
    H: Fn(usize) -> Single,
>(
    functions: &Functions<M, U, B, R, N, D, P, H>,
    layer: RecAttention,
    input: TensorView<Single>,
    output: TensorView<Single>,
) -> (stages: Stages)
    requires
        layer.wf(),
        input.wf(),
        input.shape.len() == 3,
        input.shape[0] > 0 && input.shape[1] > 0,
        layer.hidden_size as int / layer.num_heads as int > 0,
        functions.attends(layer, input, Ok(output)),
    ensures
        ({
            let batch = input.shape[0];
            let tokens = input.shape[1];
            let heads = layer.num_heads;
            let size = (layer.hidden_size as int / layer.num_heads as int) as usize;
            let arithmetic = &functions.arithmetic;
            let none = functions.function_of(Activation::Identity);
            let asked = seq![batch, tokens, 3usize, heads, size];
            let order = seq![2usize, 0usize, 3usize, 1usize, 4usize];
            let all = permuted(reshaped(Ok(stages.mixed), asked), order);
            &&& none is None
            &&& is_linear_result(layer.qkv, arithmetic, none, None::<&R>, input, stages.mixed)
            &&& part_at(all, 0) == Ok::<TensorView<Single>, TensorError>(stages.query)
            &&& part_at(all, 1) == Ok::<TensorView<Single>, TensorError>(stages.key)
            &&& part_at(all, 2) == Ok::<TensorView<Single>, TensorError>(stages.value)
            &&& call_ensures(functions.head_scale, (size,), stages.factor)
            &&& exchanged(Ok(stages.key), 2, 3) == Ok::<TensorView<Single>, TensorError>(
                stages.turned,
            )
            &&& crate::matmul::matmul_error(seq![stages.query, stages.turned], None) is None
            &&& crate::matmul::is_matmul(
                arithmetic,
                none,
                stages.query,
                stages.turned,
                stages.scores,
            )
            &&& functions.scales(stages.factor, Ok(stages.scores), Ok(stages.scaled))
            &&& functions.shares(Ok(stages.scaled), Ok(stages.weights))
            &&& crate::matmul::matmul_error(seq![stages.weights, stages.value], None) is None
            &&& crate::matmul::is_matmul(
                arithmetic,
                none,
                stages.weights,
                stages.value,
                stages.context,
            )
            &&& exchanged(Ok(stages.context), 1, 2) == Ok::<TensorView<Single>, TensorError>(
                stages.apart,
            )
            &&& reshaped(Ok(stages.apart), seq![batch, tokens, layer.hidden_size]) == Ok::<
                TensorView<Single>,
                TensorError,
            >(stages.lines)
            &&& is_linear_result(
                layer.projection,
                arithmetic,
                none,
                None::<&R>,
                stages.lines,
                output,
            )
        }),
{
    let (mixed, factor, scores, scaled, weights, context) = choose|
        mixed: Seen,
        factor: Single,
        scores: Seen,
        scaled: Seen,
        weights: Seen,
        context: Seen,
    |
        {
            &&& #[trigger] functions.projects(
                layer.qkv,
                Activation::Identity,
                false,
                Ok(input),
                mixed,
            )
            &&& call_ensures(functions.head_scale, (layer.head_size() as usize,), factor)
            &&& functions.multiplies(
                part_at(functions.heads_of(layer, input, mixed), 0),
                exchanged(part_at(functions.heads_of(layer, input, mixed), 1), 2, 3),
                scores,
            )
            &&& #[trigger] functions.scales(factor, scores, scaled)
            &&& #[trigger] functions.shares(scaled, weights)
            &&& #[trigger] functions.multiplies(
                weights,
                part_at(functions.heads_of(layer, input, mixed), 2),
                context,
            )
            &&& functions.projects(
                layer.projection,
                Activation::Identity,
                false,
                reshaped(
                    exchanged(context, 1, 2),
                    seq![input.shape[0], input.shape[1], layer.hidden_size],
                ),
                Ok(output),
            )
        };
    let all = functions.heads_of(layer, input, mixed);
    let key = part_at(all, 1)->Ok_0;
    let apart = exchanged(context, 1, 2)->Ok_0;
    Stages {
        mixed: mixed->Ok_0,
        factor,
        query: part_at(all, 0)->Ok_0,
        key,
        turned: exchanged(Ok(key), 2, 3)->Ok_0,
        value: part_at(all, 2)->Ok_0,
        scores: scores->Ok_0,
        scaled: scaled->Ok_0,
        weights: weights->Ok_0,
        context: context->Ok_0,
        apart,
        lines: reshaped(
            Ok(apart),
            seq![input.shape[0], input.shape[1], layer.hidden_size],
        )->Ok_0,
    }
}

/// The shapes and the queries, keys and values of the tensors that attention goes
/// through.
#[verifier::spinoff_prover]
#[verifier::rlimit(80)]
proof fn lemma_attention_shapes<
    M: Fn(Single, Single, Single) -> Single,
    U: Fn(Single) -> Single,
    B: Fn(Single, Single) -> Single,
    R: Fn(Vec<Single>) -> Vec<Single>,
    N: Fn(Vec<Single>, Vec<Single>, Vec<Single>, Single) -> Vec<Single>,
    D: Fn(Vec<Single>) -> Single,
    P: Fn(Vec<Single>, usize) -> Single,
    H: Fn(usize) -> Single,
>(
    functions: &Functions<M, U, B, R, N, D, P, H>,
    layer: RecAttention,
    input: TensorView<Single>,
    output: TensorView<Single>,
) -> (stages: Stages)
    requires
        layer.wf(),
        input.wf(),
        input.shape.len() == 3,
        input.shape[0] > 0 && input.shape[1] > 0,
        layer.hidden_size as int / layer.num_heads as int > 0,
        functions.attends(layer, input, Ok(output)),
    ensures
        ({
            let batch = input.shape[0];
            let tokens = input.shape[1];
            let heads = layer.num_heads;
            let hidden = layer.hidden_size as int;
            let size = hidden / heads as int;
            let arithmetic = &functions.arithmetic;
            let none = functions.function_of(Activation::Identity);
            let mixed = stages.mixed.data->F32_0;
            &&& none is None
            &&& hidden == heads * size
            &&& 0 < size <= usize::MAX
            &&& layer.qkv.output_features == 3 * hidden
            &&& product(input.shape.drop_last()) == batch * tokens
            &&& stages.lines.shape.drop_last() == input.shape.drop_last()
            &&& stages.lines.data == stages.apart.data
            &&& is_linear_result(layer.qkv, arithmetic, none, None::<&R>, input, stages.mixed)
            &&& is_linear_result(
                layer.projection,
                arithmetic,
                none,
                None::<&R>,
                stages.lines,
                output,
            )
            &&& call_ensures(functions.head_scale, (size as usize,), stages.factor)
            &&& stages.query.wf() && stages.key.wf() && stages.turned.wf()
            &&& stages.value.wf() && stages.weights.wf() && stages.scores.wf()
            &&& stages.query.shape == seq![batch, heads, tokens, size as usize]
            &&& stages.key.shape == stages.query.shape
            &&& stages.value.shape == stages.query.shape
            &&& stages.context.shape == stages.query.shape
            &&& stages.turned.shape == seq![batch, heads, size as usize, tokens]
            &&& stages.scores.shape == seq![batch, heads, tokens, tokens]
            &&& stages.scaled.shape == stages.scores.shape
            &&& stages.weights.shape == stages.scores.shape
            &&& stages.apart.shape == seq![batch, tokens, heads, size as usize]
            &&& crate::matmul::matmul_error(seq![stages.query, stages.turned], None) is None
            &&& crate::matmul::is_matmul(
                arithmetic,
                none,
                stages.query,
                stages.turned,
                stages.scores,
            )
            &&& functions.scales(stages.factor, Ok(stages.scores), Ok(stages.scaled))
            &&& functions.shares(Ok(stages.scaled), Ok(stages.weights))
            &&& crate::matmul::matmul_error(seq![stages.weights, stages.value], None) is None
            &&& crate::matmul::is_matmul(
                arithmetic,
                none,
                stages.weights,
                stages.value,
                stages.context,
            )
            &&& forall|at: Seq<int>| #[trigger]
                lies_in(stages.key.shape, at) ==> {
                    let moved = at.update(2, at[3]).update(3, at[2]);
                    lies_in(stages.turned.shape, moved) && stages.turned.data->F32_0[place_in(
                        stages.turned.shape,
                        moved,
                    )] == stages.key.data->F32_0[place_in(stages.key.shape, at)]
                }
            &&& forall|at: Seq<int>| #[trigger]
                lies_in(stages.context.shape, at) ==> {
                    let moved = at.update(1, at[2]).update(2, at[1]);
                    lies_in(stages.apart.shape, moved) && stages.apart.data->F32_0[place_in(
                        stages.apart.shape,
                        moved,
                    )] == stages.context.data->F32_0[place_in(stages.context.shape, at)]
                }
            &&& forall|b: int, h: int, t: int, d: int|
                0 <= b < batch && 0 <= h < heads && 0 <= t < tokens && 0 <= d < size ==> {
                    &&& #[trigger] stages.query.data->F32_0[head_cell(
                        heads as int,
                        tokens as int,
                        size,
                        b,
                        h,
                        t,
                        d,
                    )] == mixed[token_cell(tokens as int, 3 * hidden, b, t, h * size + d)]
                    &&& stages.key.data->F32_0[head_cell(
                        heads as int,
                        tokens as int,
                        size,
                        b,
                        h,
                        t,
                        d,
                    )] == mixed[token_cell(
                        tokens as int,
                        3 * hidden,
                        b,
                        t,
                        hidden + (h * size + d),
                    )]
                }
            &&& forall|b: int, h: int, t: int, d: int|
                0 <= b < batch && 0 <= h < heads && 0 <= t < tokens && 0 <= d < size
                    ==> #[trigger] stages.value.data->F32_0[head_cell(
                    heads as int,
                    tokens as int,
                    size,
                    b,
                    h,
                    t,
                    d,
                )] == mixed[token_cell(
                    tokens as int,
                    3 * hidden,
                    b,
                    t,
                    2 * hidden + (h * size + d),
                )]
        }),
{
    let stages = lemma_attention_stages(functions, layer, input, output);
    let batch = input.shape[0];
    let tokens = input.shape[1];
    let heads = layer.num_heads;
    let size = (layer.hidden_size as int / layer.num_heads as int) as usize;
    assert(size as int == layer.hidden_size as int / layer.num_heads as int) by (nonlinear_arith)
        requires
            layer.num_heads > 0,
            layer.hidden_size <= usize::MAX,
            size == (layer.hidden_size as int / layer.num_heads as int) as usize,
    ;
    let mixed = stages.mixed;
    let leading = input.shape.drop_last();
    assert(leading =~= seq![batch, tokens]);
    lemma_place_two(batch, tokens, 0, 0);
    let features = layer.qkv.output_features as int;
    lemma_head_values(mixed, batch, tokens, heads, size, 0, stages.query);
    lemma_head_values(mixed, batch, tokens, heads, size, 1, stages.key);
    lemma_head_values(mixed, batch, tokens, heads, size, 2, stages.value);
    let asked = seq![batch, tokens, 3usize, heads, size];
    let spread = crate::tensor_ops::reshape_of(mixed, asked)->Ok_0;
    lemma_reshaped_values(mixed, asked, spread);
    lemma_place_five(asked, seq![0int, 0int, 0int, 0int, 0int]);
    let share = heads * size;
    assert(features == 3 * share) by (nonlinear_arith)
        requires
            batch * tokens * features == batch * tokens * 3 * heads * size,
            share == heads * size,
            batch > 0,
            tokens > 0,
    ;
    let parts = seq![batch, heads, tokens, size];
    lemma_turned(stages.key, stages.turned, 2, 3);
    assert(stages.turned.shape =~= seq![batch, heads, size, tokens]);
    lemma_scores_shape(
        stages.query.shape,
        stages.turned.shape,
        batch,
        heads,
        tokens,
        size,
        tokens,
    );
    lemma_scores_shape(
        stages.weights.shape,
        stages.value.shape,
        batch,
        heads,
        tokens,
        tokens,
        size,
    );
    lemma_turned(stages.context, stages.apart, 1, 2);
    assert(stages.apart.shape =~= seq![batch, tokens, heads, size]);
    let flat = seq![batch, tokens, layer.hidden_size];
    assert(layer.hidden_size > 0);
    lemma_reshaped_values(stages.apart, flat, stages.lines);
    lemma_place_four(stages.apart.shape, seq![0int, 0int, 0int, 0int]);
    lemma_wf_count(stages.apart);
    lemma_product_three(batch, tokens, layer.hidden_size);
    let hidden = layer.hidden_size as int;
    assert(hidden == share) by (nonlinear_arith)
        requires
            batch * tokens * hidden == batch * tokens * heads * size,
            share == heads * size,
            batch > 0,
            tokens > 0,
    ;
    assert(flat.drop_last() =~= leading);
    assert(0 * share == 0 && 1 * share == share);
    assert forall|b: int, h: int, t: int, d: int|
        0 <= b < batch && 0 <= h < heads && 0 <= t < tokens && 0 <= d < size implies {
        &&& #[trigger] stages.query.data->F32_0[head_cell(
            heads as int,
            tokens as int,
            size as int,
            b,
            h,
            t,
            d,
        )] == mixed.data->F32_0[token_cell(tokens as int, 3 * hidden, b, t, h * size + d)]
        &&& stages.key.data->F32_0[head_cell(
            heads as int,
            tokens as int,
            size as int,
            b,
            h,
            t,
            d,
        )] == mixed.data->F32_0[token_cell(
            tokens as int,
            3 * hidden,
            b,
            t,
            hidden + (h * size + d),
        )]
    } by {
        let other = stages.key.data->F32_0[head_cell(
            heads as int,
            tokens as int,
            size as int,
            b,
            h,
            t,
            d,
        )];
    }
    stages
}

/// What attention is for, value by value. The first projection gives each token a
/// query, a key and a value for every head, in this order: the first, the second and the
/// last third of its features, of which each head has its share. The score of a token
/// for another is its query times the other's key, feature by feature, and then times
/// the factor for the number of features of a head. The scores of a token are turned
/// into shares, and what a head gives a token is the sum of the values of all tokens,
/// each times its share. What the heads give stands side by side, and the second
/// projection is applied to it.
///
/// Returned are the first projection, the factor, the scores before and behind it, the
/// shares, and what the heads give.
pub proof fn lemma_attention<
    M: Fn(Single, Single, Single) -> Single,
    U: Fn(Single) -> Single,
    B: Fn(Single, Single) -> Single,
    R: Fn(Vec<Single>) -> Vec<Single>,
    N: Fn(Vec<Single>, Vec<Single>, Vec<Single>, Single) -> Vec<Single>,
    D: Fn(Vec<Single>) -> Single,
    P: Fn(Vec<Single>, usize) -> Single,
    H: Fn(usize) -> Single,
>(
    functions: &Functions<M, U, B, R, N, D, P, H>,
    layer: RecAttention,
    input: TensorView<Single>,
    output: TensorView<Single>,
) -> (witness: (Seq<Single>, Single, Seq<Single>, Seq<Single>, Seq<Single>, Seq<Single>))
    requires
        layer.wf(),
        input.wf(),
        input.shape.len() == 3,
        input.shape[0] > 0 && input.shape[1] > 0,
        layer.hidden_size as int / layer.num_heads as int > 0,
        functions.attends(layer, input, Ok(output)),
    ensures
        ({
            let (mixed, factor, scores, scaled, shares, given) = witness;
            let batch = input.shape[0] as int;
            let tokens = input.shape[1] as int;
            let heads = layer.num_heads as int;
            let hidden = layer.hidden_size as int;
            let size = hidden / heads;
            let arithmetic = &functions.arithmetic;
            &&& hidden == heads * size
            &&& layer.qkv.output_features == 3 * hidden
            &&& output.data is F32
            &&& output.shape == seq![
                input.shape[0],
                input.shape[1],
                layer.projection.output_features,
            ]
            &&& forall|b: int, t: int, f: int|
                0 <= b < batch && 0 <= t < tokens && 0 <= f < 3 * hidden ==> is_feature(
                    layer.qkv,
                    arithmetic,
                    input.data->F32_0,
                    b * tokens + t,
                    f,
                    #[trigger] mixed[token_cell(tokens, 3 * hidden, b, t, f)],
                )
            &&& call_ensures(functions.head_scale, (size as usize,), factor)
            &&& forall|b: int, h: int, t: int, s: int|
                0 <= b < batch && 0 <= h < heads && 0 <= t < tokens && 0 <= s < tokens ==> {
                    let score = #[trigger] scores[head_cell(heads, tokens, tokens, b, h, t, s)];
                    &&& folded(
                        arithmetic.mul_add,
                        arithmetic.zero,
                        Seq::new(
                            size as nat,
                            |d: int|
                                (
                                    mixed[token_cell(tokens, 3 * hidden, b, t, h * size + d)],
                                    mixed[token_cell(
                                        tokens,
                                        3 * hidden,
                                        b,
                                        s,
                                        hidden + (h * size + d),
                                    )],
                                ),
                        ),
                        score,
                    )
                    &&& call_ensures(
                        arithmetic.mul_add,
                        (score, factor, arithmetic.zero),
                        scaled[head_cell(heads, tokens, tokens, b, h, t, s)],
                    )
                }
            &&& forall|b: int, h: int, t: int|
                0 <= b < batch && 0 <= h < heads && 0 <= t < tokens ==> {
                    let row = (#[trigger] head_row(heads, tokens, b, h, t)) * tokens;
                    maps_row(functions.softmax, scaled.subrange(row, row + tokens), shares.subrange(row, row + tokens))
                }
            &&& forall|b: int, t: int, h: int, d: int|
                0 <= b < batch && 0 <= t < tokens && 0 <= h < heads && 0 <= d < size ==> folded(
                    arithmetic.mul_add,
                    arithmetic.zero,
                    Seq::new(
                        tokens as nat,
                        |s: int|
                            (
                                shares[head_cell(heads, tokens, tokens, b, h, t, s)],
                                mixed[token_cell(
                                    tokens,
                                    3 * hidden,
                                    b,
                                    s,
                                    2 * hidden + (h * size + d),
                                )],
                            ),
                    ),
                    #[trigger] given[head_cell(tokens, heads, size, b, t, h, d)],
                )
            &&& forall|b: int, t: int, o: int|
                0 <= b < batch && 0 <= t < tokens && 0 <= o < layer.projection.output_features
                    ==> is_feature(
                    layer.projection,
                    arithmetic,
                    given,
                    b * tokens + t,
                    o,
                    #[trigger] output.data->F32_0[token_cell(
                        tokens,
                        layer.projection.output_features as int,
                        b,
                        t,
                        o,
                    )],
                )
        }),
{
    let stages = lemma_attention_shapes(functions, layer, input, output);
    let none = functions.function_of(Activation::Identity);
    let mixed = stages.mixed.data->F32_0;
    lemma_score_values(
        &functions.arithmetic,
        none,
        mixed,
        stages.query,
        stages.key,
        stages.turned,
        stages.scores,
        input.shape[0] as int,
        input.shape[1] as int,
        layer.num_heads as int,
        layer.hidden_size as int / layer.num_heads as int,
        layer.hidden_size as int,
    );
    lemma_given_values(
        &functions.arithmetic,
        none,
        mixed,
        stages.weights,
        stages.value,
        stages.context,
        stages.apart,
        input.shape[0] as int,
        input.shape[1] as int,
        layer.num_heads as int,
        layer.hidden_size as int / layer.num_heads as int,
        layer.hidden_size as int,
    );
    lemma_share_rows(
        functions,
        stages.factor,
        stages.scores,
        stages.scaled,
        stages.weights,
        input.shape[0] as int,
        input.shape[1] as int,
        layer.num_heads as int,
    );
    lemma_features(
        layer.qkv,
        &functions.arithmetic,
        none,
        None::<&R>,
        input,
        stages.mixed,
        input.shape[0] as int,
        input.shape[1] as int,
        3 * layer.hidden_size as int,
    );
    lemma_features(
        layer.projection,
        &functions.arithmetic,
        none,
        None::<&R>,
        stages.lines,
        output,
        input.shape[0] as int,
        input.shape[1] as int,
        layer.projection.output_features as int,
    );
    assert(output.shape =~= seq![
        input.shape[0],
        input.shape[1],
        layer.projection.output_features,
    ]);
    (
        mixed,
        stages.factor,
        stages.scores.data->F32_0,
        stages.scaled.data->F32_0,
        stages.weights.data->F32_0,
        stages.lines.data->F32_0,
    )
}

proof fn lemma_features<
    M: Fn(Single, Single, Single) -> Single,
    A: Fn(Single) -> Single,
    R: Fn(Vec<Single>) -> Vec<Single>,
>(
    layer: Linear<Single>,
    arithmetic: &Arithmetic<Single, M>,
    activation: Option<&A>,
    operation: Option<&R>,
    input: TensorView<Single>,
    result: TensorView<Single>,
    batch: int,
    tokens: int,
    features: int,
)
    requires
        layer.wf(),
        activation is None,
        operation is None,
        is_linear_result(layer, arithmetic, activation, operation, input, result),
        product(input.shape.drop_last()) == batch * tokens,
        features == layer.output_features,
        0 < batch && 0 < tokens,
    ensures
        result.data is F32,
        result.shape == input.shape.drop_last().push(layer.output_features),
        forall|b: int, t: int, f: int|
            0 <= b < batch && 0 <= t < tokens && 0 <= f < features ==> is_feature(
                layer,
                arithmetic,
                input.data->F32_0,
                b * tokens + t,
                f,
                #[trigger] result.data->F32_0[token_cell(tokens, features, b, t, f)],
            ),
{
    assert forall|b: int, t: int, f: int|
        0 <= b < batch && 0 <= t < tokens && 0 <= f < features implies is_feature(
        layer,
        arithmetic,
        input.data->F32_0,
        b * tokens + t,
        f,
        #[trigger] result.data->F32_0[token_cell(tokens, features, b, t, f)],
    ) by {
        lemma_row_bound(b, batch, t, tokens);
        lemma_linear_value(
            layer,
            arithmetic,
            operation,
            input,
            result,
            activation,
            b * tokens + t,
            f,
        );
    }
}

proof fn lemma_share_rows<
    M: Fn(Single, Single, Single) -> Single,
    U: Fn(Single) -> Single,
    B: Fn(Single, Single) -> Single,
    R: Fn(Vec<Single>) -> Vec<Single>,
    N: Fn(Vec<Single>, Vec<Single>, Vec<Single>, Single) -> Vec<Single>,
    D: Fn(Vec<Single>) -> Single,
    P: Fn(Vec<Single>, usize) -> Single,
    H: Fn(usize) -> Single,
>(
    functions: &Functions<M, U, B, R, N, D, P, H>,
    factor: Single,
    scores: TensorView<Single>,
    scaled: TensorView<Single>,
    weights: TensorView<Single>,
    batch: int,
    tokens: int,
    heads: int,
)
    requires
        0 < batch <= usize::MAX && 0 < tokens <= usize::MAX && 0 < heads <= usize::MAX,
        scores.wf(),
        scores.shape == seq![batch as usize, heads as usize, tokens as usize, tokens as usize],
        scaled.shape == scores.shape,
        functions.scales(factor, Ok(scores), Ok(scaled)),
        functions.shares(Ok(scaled), Ok(weights)),
    ensures
        forall|b: int, h: int, t: int, s: int|
            0 <= b < batch && 0 <= h < heads && 0 <= t < tokens && 0 <= s < tokens ==> call_ensures(
                functions.arithmetic.mul_add,
                (
                    #[trigger] scores.data->F32_0[head_cell(heads, tokens, tokens, b, h, t, s)],
                    factor,
                    functions.arithmetic.zero,
                ),
                scaled.data->F32_0[head_cell(heads, tokens, tokens, b, h, t, s)],
            ),
        forall|b: int, h: int, t: int|
            0 <= b < batch && 0 <= h < heads && 0 <= t < tokens ==> {
                let row = (#[trigger] head_row(heads, tokens, b, h, t)) * tokens;
                maps_row(functions.softmax, scaled.data->F32_0.subrange(row, row + tokens), weights.data->F32_0.subrange(row, row + tokens))
            },
{
    let square = scores.shape;
    lemma_place_four(square, seq![0int, 0int, 0int, 0int]);
    lemma_wf_count(scores);
    assert forall|b: int, h: int, t: int, s: int|
        0 <= b < batch && 0 <= h < heads && 0 <= t < tokens && 0 <= s
            < tokens implies call_ensures(
        functions.arithmetic.mul_add,
        (
            #[trigger] scores.data->F32_0[head_cell(heads, tokens, tokens, b, h, t, s)],
            factor,
            functions.arithmetic.zero,
        ),
        scaled.data->F32_0[head_cell(heads, tokens, tokens, b, h, t, s)],
    ) by {
        let at = seq![b, h, t, s];
        lemma_place_four(square, at);
        assert(lies_in(square, at));
        lemma_place_bound(square, at);
    }
    assert(seq![scaled][0] == scaled);
    lemma_wf_count(scaled);
    let count = scaled.data.len() as int;
    assert(crate::layout::axis_of(-1i64, 4) == Ok::<usize, TensorError>(3usize));
    assert forall|b: int, h: int, t: int| 0 <= b < batch && 0 <= h < heads && 0 <= t < tokens implies {
        let row = (#[trigger] head_row(heads, tokens, b, h, t)) * tokens;
        maps_row(functions.softmax, scaled.data->F32_0.subrange(row, row + tokens), weights.data->F32_0.subrange(row, row + tokens))
    } by {
        let index = head_row(heads, tokens, b, h, t);
        lemma_row_bound(b, batch, h, heads);
        lemma_row_bound(b * heads + h, batch * heads, t, tokens);
        let rows = batch * heads * tokens;
        assert(count == rows * tokens);
        crate::index::lemma_decode(rows, 0, tokens);
        assert(count / tokens == rows);
        assert(crate::elementwise::row_result(
            functions.softmax,
            crate::elementwise::row_of(scaled.data->F32_0, tokens, index),
            crate::elementwise::row_of(weights.data->F32_0, tokens, index),
        ));
        assert((index + 1) * tokens == index * tokens + tokens) by (nonlinear_arith);
        let before = scaled.data->F32_0.subrange(index * tokens, index * tokens + tokens);
        let after = weights.data->F32_0.subrange(index * tokens, index * tokens + tokens);
        assert(crate::elementwise::row_of(scaled.data->F32_0, tokens, index) == before);
        assert(crate::elementwise::row_of(weights.data->F32_0, tokens, index) == after);
        assert(maps_row(functions.softmax, before, after));
    }
}

proof fn lemma_product_three(a: usize, b: usize, c: usize)
    ensures
        product(seq![a, b, c]) == a * b * c,
{
    lemma_place_two(a, b, 0, 0);
    assert(seq![a, b, c].drop_last() =~= seq![a, b]);
}

/// The shape of a product of matrices for the same batches and heads.
proof fn lemma_scores_shape(
    left: Seq<usize>,
    right: Seq<usize>,
    batch: usize,
    heads: usize,
    rows: usize,
    inner: usize,
    columns: usize,
)
    requires
        left == seq![batch, heads, rows, inner],
        right == seq![batch, heads, inner, columns],
    ensures
        crate::matmul::output_shape(left, right) == seq![batch, heads, rows, columns],
{
    let pair = seq![batch, heads];
    assert(crate::matmul::batch_of(left) =~= pair);
    assert(crate::matmul::batch_of(right) =~= pair);
    assert(crate::broadcast::broadcast_of(pair, pair) =~= pair);
    assert(crate::matmul::output_shape(left, right) =~= seq![batch, heads, rows, columns]);
}

} // verus!
