//! What preparing the parameters of layers is for.
use vstd::prelude::*;
use crate::benchmark::{decoded, encoded};
use crate::folding::{is_folded, is_fused_cell, Norm};
use crate::index::lemma_decode;
use crate::single::Single;

verus! {

/// What bytes of numbers are for: four bytes stand for a number, the first of them for
/// its lowest bits.
pub proof fn lemma_decoded_bits(bytes: Seq<u8>, place: int)
    requires
        0 <= place < bytes.len() as int / 4,
    ensures
        decoded(bytes).len() == bytes.len() as int / 4,
        decoded(bytes)[place].bits == bytes[4 * place] + 256 * bytes[4 * place + 1] + 65536
            * bytes[4 * place + 2] + 16777216 * bytes[4 * place + 3],
{
    assert(place * 4 == 4 * place);
}

/// The bytes of a number make up its bits, the lowest first.
pub proof fn lemma_encoded_bits(values: Seq<Single>, place: int)
    requires
        0 <= place < values.len(),
    ensures
        ({
            let bytes = encoded(values);
            &&& bytes.len() == 4 * values.len()
            &&& values[place].bits == bytes[4 * place] + 256 * bytes[4 * place + 1] + 65536
                * bytes[4 * place + 2] + 16777216 * bytes[4 * place + 3]
        }),
{
    let bits = values[place].bits;
    assert((4 * place) / 4 == place && (4 * place) % 4 == 0);
    assert((4 * place + 1) / 4 == place && (4 * place + 1) % 4 == 1);
    assert((4 * place + 2) / 4 == place && (4 * place + 2) % 4 == 2);
    assert((4 * place + 3) / 4 == place && (4 * place + 3) % 4 == 3);
    assert(bits / 0x100_0000 <= 0xff);
}

/// What folding a normalization into a layer is for: every weight of an output channel
/// is multiplied by the factor that the normalization has for that channel, and its bias
/// is shifted by the same channel's values. The weights of a channel lie in `outer` runs
/// of `row`, one run for each channel of the input where the weights are transposed and
/// a single one where they are not.
pub proof fn lemma_folded_channel<
    F,
    S: Fn(F, F) -> F,
    T: Fn(F, F) -> F,
    H: Fn(F, F, F, F) -> F,
>(
    scale: S,
    times: T,
    shift: H,
    norm: Norm<F>,
    channels: int,
    row: int,
    weight: Seq<F>,
    bias: Seq<F>,
    scales: Seq<F>,
    new_weight: Seq<F>,
    new_bias: Seq<F>,
    outer: int,
    channel: int,
    offset: int,
)
    requires
        is_folded(
            scale,
            times,
            shift,
            norm,
            channels,
            row,
            weight,
            bias,
            scales,
            new_weight,
            new_bias,
        ),
        0 <= channel < channels,
        0 <= offset < row,
        0 <= (outer * channels + channel) * row + offset < weight.len(),
    ensures
        call_ensures(scale, (norm.gamma@[channel], norm.variance@[channel]), scales[channel]),
        call_ensures(
            times,
            (weight[(outer * channels + channel) * row + offset], scales[channel]),
            new_weight[(outer * channels + channel) * row + offset],
        ),
        call_ensures(
            shift,
            (bias[channel], norm.mean@[channel], scales[channel], norm.beta@[channel]),
            new_bias[channel],
        ),
{
    let place = (outer * channels + channel) * row + offset;
    lemma_decode(outer * channels + channel, offset, row);
    lemma_decode(outer, channel, channels);
    assert(crate::folding::channel_of(place, row, channels) == channel);
    let value = new_weight[place];
    let factor = scales[channel];
    let shifted = new_bias[channel];
}

/// What fusing three kernels is for: the upright kernel is added to the middle column of
/// the square one and the level kernel to its middle row; all other weights stay.
pub proof fn lemma_fused_kernel<F, G: Fn(F, F) -> F>(
    addition: G,
    symmetric: Seq<F>,
    vertical: Seq<F>,
    horizontal: Seq<F>,
    kernel: int,
    filter: int,
    y: int,
    x: int,
    value: F,
) -> (middle: F)
    requires
        0 <= filter,
        0 <= y < kernel,
        0 <= x < kernel,
        is_fused_cell(
            addition,
            symmetric,
            vertical,
            horizontal,
            kernel,
            (filter * kernel + y) * kernel + x,
            value,
        ),
    ensures
        ({
            let square = symmetric[(filter * kernel + y) * kernel + x];
            &&& if x == kernel / 2 {
                call_ensures(addition, (square, vertical[filter * kernel + y]), middle)
            } else {
                middle == square
            }
            &&& if y == kernel / 2 {
                call_ensures(addition, (middle, horizontal[filter * kernel + x]), value)
            } else {
                value == middle
            }
        }),
{
    let index = (filter * kernel + y) * kernel + x;
    lemma_decode(filter * kernel + y, x, kernel);
    lemma_decode(filter, y, kernel);
    choose|middle: F| #[trigger]
        crate::elementwise::folds(
            addition,
            symmetric[index],
            crate::folding::upright_at(vertical, kernel, index),
            middle,
        ) && crate::elementwise::folds(
            addition,
            middle,
            crate::folding::level_at(horizontal, kernel, index),
            value,
        )
}

} // verus!
