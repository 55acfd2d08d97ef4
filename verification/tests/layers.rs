use ppocr::accumulate::Arithmetic;
use ppocr::broadcast::binary;
use ppocr::conv::{conv, ConvOptions};
use ppocr::conv_layer::Conv2d;
use ppocr::conv_plan::{large_pointwise_work, plan_conv, use_linear_6x16, ConvGeometry, Platform};
use ppocr::conv_transpose::conv_transpose;
use ppocr::conv_transpose_layer::ConvTranspose2d;
use ppocr::folding::{fold_batch_norm, fuse_intraclass_conv, Norm};
use ppocr::fused_layers::{forward_depthwise_pointwise, forward_pointwise_pair_gelu};
use ppocr::linear::{LayerNorm, Linear};
use ppocr::matmul::matmul;
use ppocr::pooling::{batch_normalization, pool, PoolOptions};
use ppocr::rank_one::{factor_rank_one_conv_weight, FactorError};
use ppocr::reduction::softmax as softmax_of;
use ppocr::shape::IntoShape;
use ppocr::single::Single;
use ppocr::tensor::{Tensor, TensorError};

type Unary = fn(f32) -> f32;
type Binary = fn(f32, f32) -> f32;
type Row = fn(Vec<f32>) -> Vec<f32>;

fn fused(a: f32, b: f32, c: f32) -> f32 {
    a.mul_add(b, c)
}

fn arithmetic() -> Arithmetic<f32, fn(f32, f32, f32) -> f32> {
    Arithmetic { zero: 0.0, mul_add: fused }
}

fn none() -> Option<&'static Unary> {
    None
}

fn relu(value: f32) -> f32 {
    value.max(0.0)
}

fn gelu(value: f32) -> f32 {
    0.5 * value * (1.0 + (0.797_884_6 * (value + 0.044_715 * value * value * value)).tanh())
}

fn plus(left: f32, right: f32) -> f32 {
    left + right
}

fn softmax(mut row: Vec<f32>) -> Vec<f32> {
    let maximum = row.iter().copied().fold(f32::NEG_INFINITY, f32::max);
    let mut sum = 0.0;
    for value in &mut row {
        *value = (*value - maximum).exp();
        sum += *value;
    }
    for value in &mut row {
        *value /= sum;
    }
    row
}

fn normalized(row: Vec<f32>, scale: Vec<f32>, offset: Vec<f32>, epsilon: Single) -> Vec<f32> {
    let count = row.len() as f32;
    let mean = row.iter().sum::<f32>() / count;
    let variance = row.iter().map(|value| (value - mean) * (value - mean)).sum::<f32>() / count;
    let inverse = 1.0 / (variance + f32::from_bits(epsilon.bits)).sqrt();
    row.iter()
        .zip(scale.iter().zip(&offset))
        .map(|(value, (scale, offset))| (value - mean) * inverse * scale + offset)
        .collect()
}

fn platforms() -> [Platform; 3] {
    [
        Platform {
            system_dense: false,
            wide_kernels: true,
            direct_spatial: true,
            pair_fusion: true,
        },
        Platform {
            system_dense: false,
            wide_kernels: false,
            direct_spatial: false,
            pair_fusion: true,
        },
        Platform {
            system_dense: true,
            wide_kernels: false,
            direct_spatial: false,
            pair_fusion: false,
        },
    ]
}

fn tensor(shape: impl IntoShape, values: &[f32]) -> Tensor<f32> {
    Tensor::from_f32(shape, values.to_vec()).unwrap()
}

fn new_f32(shape: Vec<usize>, values: Vec<f32>) -> Tensor<f32> {
    Tensor::from_f32(shape, values).unwrap()
}

fn convolution(
    weight: Tensor<f32>,
    bias: Option<Tensor<f32>>,
    strides: [usize; 2],
    pads: [usize; 4],
    groups: usize,
    platform: Platform,
) -> Conv2d<f32> {
    Conv2d::new(weight, bias, strides, pads, groups, false, platform).unwrap()
}

fn forward(layer: &Conv2d<f32>, input: &Tensor<f32>) -> Tensor<f32> {
    let first = layer.forward(&arithmetic(), none(), false, input).unwrap();
    let second = layer.forward(&arithmetic(), none(), true, input).unwrap();
    assert_tensors_close(&first, &second);
    first
}

fn sum(left: Tensor<f32>, right: Tensor<f32>) -> Tensor<f32> {
    binary(&[left, right], &plus, &plus).unwrap()
}

fn assert_tensors_close(actual: &Tensor<f32>, expected: &Tensor<f32>) {
    assert_eq!(actual.shape(), expected.shape());
    for (&actual, &expected) in actual.as_f32().unwrap().iter().zip(expected.as_f32().unwrap()) {
        assert!((actual - expected).abs() <= 3.0e-5 * (1.0 + expected.abs()));
    }
}

#[test]
fn linear_fuses_bias_and_softmax() {
    let weight = tensor([2, 3], &[1.0, 0.0, -1.0, 0.0, 1.0, 1.0]);
    let bias = tensor([2], &[0.5, -0.5]);
    let linear = Linear::new(weight, Some(bias)).unwrap();
    let input = tensor([1, 3], &[2.0, 3.0, 1.0]);
    let rows: Option<&Row> = None;
    let output = linear.forward(&arithmetic(), none(), rows, &input).unwrap();
    assert_eq!(output.shape(), [1, 2]);
    assert_eq!(output.as_f32().unwrap(), &[1.5, 3.5]);

    let probabilities = linear
        .forward(&arithmetic(), none(), Some(&softmax), &input)
        .unwrap();
    let values = probabilities.as_f32().unwrap();
    assert!((values[0] + values[1] - 1.0).abs() < 1e-6);
    assert!(values[1] > values[0]);
}

#[test]
fn direct_linear_matches_dynamic_matmul_with_leading_dimensions() {
    let weight = tensor(
        [4, 3],
        &[1.0, 0.0, -1.0, 0.5, -0.25, 2.0, 1.5, 0.75, -0.5, -1.0, 1.0, 0.25],
    );
    let bias = tensor([4], &[0.5, -0.25, 1.0, -0.75]);
    let transposed = weight.transpose(0, 1).unwrap();
    let linear = Linear::new(weight, Some(bias.duplicate())).unwrap();
    let input_values = (0..36)
        .map(|index| ((index * 7 % 19) as f32 - 9.0) / 5.0)
        .collect::<Vec<_>>();
    let input = new_f32(vec![2, 3, 2, 3], input_values);

    let product = matmul(&arithmetic(), &[input.duplicate(), transposed], none()).unwrap();
    let expected = sum(product, bias);
    let rows: Option<&Row> = None;
    let actual = linear.forward(&arithmetic(), none(), rows, &input).unwrap();
    assert_eq!(actual.shape(), [2, 3, 2, 4]);
    assert_tensors_close(&actual, &expected);

    let expected_softmax = softmax_of(&[expected.duplicate()], -1, &softmax).unwrap();
    let actual = linear
        .forward(&arithmetic(), none(), Some(&softmax), &input)
        .unwrap();
    assert_tensors_close(&actual, &expected_softmax);

    let empty = new_f32(vec![2, 0, 3], Vec::new());
    let actual = linear.forward(&arithmetic(), none(), rows, &empty).unwrap();
    assert_eq!(actual.shape(), [2, 0, 4]);
    assert!(actual.as_f32().unwrap().is_empty());
}

#[test]
fn linear_6x16_packing_is_limited_to_large_classifiers() {
    assert!(!use_linear_6x16(80, 6_906));
    assert!(!use_linear_6x16(120, 18_710));
    assert!(use_linear_6x16(192, 18_710));
    assert!(!use_linear_6x16(191, 18_710));
    assert!(!use_linear_6x16(192, 4_095));
    assert!(!use_linear_6x16(768, 192));
    assert!(use_linear_6x16(192, 4_096));
    assert!(use_linear_6x16(768, 18_710));
}

#[test]
fn linear_layers_refuse_weights_that_do_not_fit() {
    let matrix = || tensor([2, 3], &[0.0; 6]);
    assert!(matches!(
        Linear::new(tensor([6], &[0.0; 6]), None),
        Err(TensorError::Rank)
    ));
    assert!(matches!(
        Linear::new(matrix(), Some(tensor([3], &[0.0; 3]))),
        Err(TensorError::Bias)
    ));
    let layer = Linear::new(matrix(), None).unwrap();
    let rows: Option<&Row> = None;
    assert!(matches!(
        layer.forward(&arithmetic(), none(), rows, &tensor([2, 2], &[0.0; 4])),
        Err(TensorError::ShapeMismatch)
    ));
}

#[test]
fn layer_norm_normalizes_the_last_dimension() {
    let norm = LayerNorm::new(
        tensor([3], &[1.0, 1.0, 1.0]),
        tensor([3], &[0.0, 0.0, 0.0]),
        Single { bits: 1e-5f32.to_bits() },
    )
    .unwrap();
    let output = norm
        .forward(&normalized, &tensor([2, 3], &[1.0, 2.0, 3.0, 4.0, 4.0, 4.0]))
        .unwrap();
    let rows = output.as_f32().unwrap();
    assert!(rows[..3].iter().copied().sum::<f32>().abs() < 1e-5);
    assert!(rows[3..].iter().all(|value| value.abs() < 1e-6));
}

#[test]
fn layer_norm_takes_no_negative_epsilon() {
    let ones = || tensor([1], &[1.0]);
    for epsilon in [0.0, -0.0, 1.0, f32::INFINITY] {
        assert!(LayerNorm::new(ones(), ones(), Single { bits: f32::to_bits(epsilon) }).is_ok());
    }
    for epsilon in [-1.0, -f32::MIN_POSITIVE, f32::NAN] {
        assert!(matches!(
            LayerNorm::new(ones(), ones(), Single { bits: f32::to_bits(epsilon) }),
            Err(TensorError::Epsilon)
        ));
    }
}

#[test]
fn convolution_wrapper_runs_packed_pointwise_weight() {
    for platform in platforms() {
        let layer = convolution(
            tensor([2, 2, 1, 1], &[1.0, 2.0, 3.0, 4.0]),
            Some(tensor([2], &[0.5, -0.5])),
            [1, 1],
            [0; 4],
            1,
            platform,
        );
        let output = forward(&layer, &tensor([1, 2, 1, 2], &[1.0, 2.0, 10.0, 20.0]));
        assert_eq!(output.shape(), [1, 2, 1, 2]);
        assert_eq!(output.as_f32().unwrap(), &[21.5, 42.5, 42.5, 85.5]);
    }
}

#[test]
fn convolution_layers_refuse_weights_that_do_not_fit() {
    let platform = platforms()[0];
    let refused = |shape: [usize; 4], bias: Option<usize>, strides, groups| {
        let count = shape.iter().product::<usize>();
        Conv2d::new(
            tensor(shape, &vec![0.0; count]),
            bias.map(|length| tensor([length], &vec![0.0; length])),
            strides,
            [0; 4],
            groups,
            false,
            platform,
        )
        .err()
    };
    assert_eq!(refused([2, 2, 1, 1], None, [1, 1], 1), None);
    assert!(refused([2, 2, 1, 1], None, [0, 1], 1).is_some());
    assert!(refused([2, 2, 1, 1], None, [1, 1], 0).is_some());
    assert!(refused([2, 2, 1, 1], Some(3), [1, 1], 1).is_some());
}

#[test]
fn pointwise_pair_tile_matches_separate_packed_12_convolutions() {
    let (batch, input_channels, hidden_channels, output_channels, height, width) =
        (2, 5, 13, 7, 2, 9);
    let values = |length: usize, multiplier: usize, divisor: f32| {
        (0..length)
            .map(|index| ((index * multiplier % 29) as f32 - 14.0) / divisor)
            .collect::<Vec<_>>()
    };
    for platform in platforms() {
        let first = convolution(
            new_f32(
                vec![hidden_channels, input_channels, 1, 1],
                values(hidden_channels * input_channels, 11, 19.0),
            ),
            Some(new_f32(vec![hidden_channels], values(hidden_channels, 7, 23.0))),
            [1, 1],
            [0; 4],
            1,
            platform,
        );
        let second = convolution(
            new_f32(
                vec![output_channels, hidden_channels, 1, 1],
                values(output_channels * hidden_channels, 13, 17.0),
            ),
            Some(new_f32(vec![output_channels], values(output_channels, 5, 31.0))),
            [1, 1],
            [0; 4],
            1,
            platform,
        );
        let input = new_f32(
            vec![batch, input_channels, height, width],
            values(batch * input_channels * height * width, 17, 13.0),
        );

        let hidden = first
            .forward(&arithmetic(), Some(&gelu), false, &input)
            .unwrap();
        let expected = forward(&second, &hidden);
        let residual: Option<&Binary> = None;
        for threads in [1, 4] {
            let actual = forward_pointwise_pair_gelu(
                &arithmetic(),
                Some(&gelu),
                &first,
                &second,
                residual,
                threads,
                platform,
                &input,
            )
            .unwrap();
            assert_tensors_close(&actual, &expected);
        }
    }
}

#[test]
fn pointwise_pair_tile_matches_blocked_6_residual_path() {
    let (channels, hidden_channels, width) = (128, 256, 17);
    let values = |length: usize, multiplier: usize, divisor: f32| {
        (0..length)
            .map(|index| ((index * multiplier % 37) as f32 - 18.0) / divisor)
            .collect::<Vec<_>>()
    };
    for platform in platforms() {
        let first = convolution(
            new_f32(
                vec![hidden_channels, channels, 1, 1],
                values(hidden_channels * channels, 19, 41.0),
            ),
            Some(new_f32(vec![hidden_channels], values(hidden_channels, 7, 43.0))),
            [1, 1],
            [0; 4],
            1,
            platform,
        );
        let second = convolution(
            new_f32(
                vec![channels, hidden_channels, 1, 1],
                values(channels * hidden_channels, 23, 47.0),
            ),
            Some(new_f32(vec![channels], values(channels, 11, 53.0))),
            [1, 1],
            [0; 4],
            1,
            platform,
        );
        let input = new_f32(vec![1, channels, 1, width], values(channels * width, 29, 31.0));

        let hidden = first
            .forward(&arithmetic(), Some(&gelu), false, &input)
            .unwrap();
        let expected = sum(input.duplicate(), forward(&second, &hidden));
        let actual = forward_pointwise_pair_gelu(
            &arithmetic(),
            Some(&gelu),
            &first,
            &second,
            Some(&plus),
            4,
            platform,
            &input,
        )
        .unwrap();
        assert_tensors_close(&actual, &expected);
    }
}

#[test]
fn depthwise_pointwise_strips_match_separate_kernels() {
    let values = |length: usize, multiplier: usize, modulus: usize, divisor: f32| {
        (0..length)
            .map(|index| ((index * multiplier % modulus) as f32 - (modulus / 2) as f32) / divisor)
            .collect::<Vec<_>>()
    };

    for (kernel, channels, output_channels, batch, depthwise_has_bias, pointwise_has_bias) in [
        (3, 128, 128, 1, true, true),
        (5, 64, 16, 2, true, false),
        (7, 96, 24, 1, true, false),
        (9, 256, 64, 1, false, true),
    ] {
        let platform = platforms()[0];
        let height = 5;
        let width = 19;
        let padding = kernel / 2;
        let depthwise = convolution(
            new_f32(
                vec![channels, 1, kernel, kernel],
                values(channels * kernel * kernel, 17, 43, 29.0),
            ),
            if depthwise_has_bias {
                Some(new_f32(vec![channels], values(channels, 11, 37, 31.0)))
            } else {
                None
            },
            [1, 1],
            [padding; 4],
            channels,
            platform,
        );
        let pointwise = convolution(
            new_f32(
                vec![output_channels, channels, 1, 1],
                values(output_channels * channels, 23, 47, 41.0),
            ),
            if pointwise_has_bias {
                Some(new_f32(vec![output_channels], values(output_channels, 13, 31, 37.0)))
            } else {
                None
            },
            [1, 1],
            [0; 4],
            1,
            platform,
        );
        let input = new_f32(
            vec![batch, channels, height, width],
            values(batch * channels * height * width, 29, 53, 43.0),
        );

        let between = depthwise
            .forward(&arithmetic(), none(), false, &input)
            .unwrap();
        let expected = pointwise
            .forward(&arithmetic(), none(), false, &between)
            .unwrap();
        let actual = forward_depthwise_pointwise(
            &arithmetic(),
            &depthwise,
            &pointwise,
            none(),
            false,
            platform,
            &input,
        )
        .unwrap();
        assert_tensors_close(&actual, &expected);
    }
}

#[test]
fn depthwise_pointwise_falls_back_for_stride_two() {
    let channels = 4;
    let output_channels = 3;
    for platform in platforms() {
        let depthwise = convolution(
            new_f32(
                vec![channels, 1, 3, 3],
                (0..channels * 9).map(|index| (index as f32 - 17.0) / 23.0).collect(),
            ),
            Some(new_f32(vec![channels], vec![0.125; channels])),
            [2, 2],
            [1; 4],
            channels,
            platform,
        );
        let pointwise = convolution(
            new_f32(
                vec![output_channels, channels, 1, 1],
                (0..output_channels * channels)
                    .map(|index| (index as f32 - 5.0) / 17.0)
                    .collect(),
            ),
            None,
            [1, 1],
            [0; 4],
            1,
            platform,
        );
        let input = new_f32(
            vec![1, channels, 7, 9],
            (0..channels * 7 * 9)
                .map(|index| ((index * 7 % 41) as f32 - 20.0) / 29.0)
                .collect(),
        );

        let expected = forward(&pointwise, &forward(&depthwise, &input));
        let actual = forward_depthwise_pointwise(
            &arithmetic(),
            &depthwise,
            &pointwise,
            none(),
            false,
            platform,
            &input,
        )
        .unwrap();
        assert_tensors_close(&actual, &expected);
    }
}

#[test]
fn direct_spatial_six_row_blocks_match_scalar_with_two_and_four_row_tails() {
    let input_channels = 2;
    let input_height = 7;
    let input_width = 35;
    let kernel = 3;
    let strides = [2, 2];
    let pads = [1, 1, 1, 1];
    let output_height = 4;
    let output_width = 18;
    let input_values = (0..input_channels * input_height * input_width)
        .map(|index| ((index * 17 % 47) as f32 - 23.0) / 29.0)
        .collect::<Vec<_>>();

    for output_channels in [8, 16] {
        let weights = (0..output_channels * input_channels * kernel * kernel)
            .map(|index| ((index * 13 % 41) as f32 - 20.0) / 31.0)
            .collect::<Vec<_>>();
        let bias = (0..output_channels)
            .map(|channel| (channel as f32 - 5.0) / 17.0)
            .collect::<Vec<_>>();
        let layer = convolution(
            new_f32(vec![output_channels, input_channels, kernel, kernel], weights.clone()),
            Some(new_f32(vec![output_channels], bias.clone())),
            strides,
            pads,
            1,
            platforms()[0],
        );
        assert!(layer.plan.direct_spatial);
        let actual = layer
            .forward(
                &arithmetic(),
                Some(&relu),
                false,
                &new_f32(
                    vec![1, input_channels, input_height, input_width],
                    input_values.clone(),
                ),
            )
            .unwrap();

        let output_plane = output_height * output_width;
        let input_plane = input_height * input_width;
        let mut expected = vec![0.0; output_channels * output_plane];
        for output_channel in 0..output_channels {
            for output_y in 0..output_height {
                for output_x in 0..output_width {
                    let mut sum: f32 = bias[output_channel];
                    for input_channel in 0..input_channels {
                        for kernel_y in 0..kernel {
                            let padded_y = output_y * strides[0] + kernel_y;
                            if padded_y < pads[0] || padded_y - pads[0] >= input_height {
                                continue;
                            }
                            let input_y = padded_y - pads[0];
                            for kernel_x in 0..kernel {
                                let padded_x = output_x * strides[1] + kernel_x;
                                if padded_x < pads[1] || padded_x - pads[1] >= input_width {
                                    continue;
                                }
                                let input_x = padded_x - pads[1];
                                let input_value: f32 = input_values
                                    [input_channel * input_plane + input_y * input_width + input_x];
                                let weight_index = ((output_channel * input_channels
                                    + input_channel)
                                    * kernel
                                    + kernel_y)
                                    * kernel
                                    + kernel_x;
                                sum = input_value.mul_add(weights[weight_index], sum);
                            }
                        }
                    }
                    expected[output_channel * output_plane + output_y * output_width + output_x] =
                        sum.max(0.0);
                }
            }
        }
        assert_tensors_close(
            &actual,
            &new_f32(vec![1, output_channels, output_height, output_width], expected),
        );
    }
}

#[test]
fn exact_sparse_pointwise_preserves_dynamic_width_tail() {
    let channels = 512;
    let width = 17;
    let mut weights = vec![0.0; channels * channels];
    let mut scales = vec![0.0; channels];
    for row in 0..channels {
        let scale = (row % 13 + 1) as f32 / 17.0;
        weights[row * channels + row] = scale;
        scales[row] = scale;
    }
    let bias = (0..channels).map(|row| (row % 7) as f32 / 19.0).collect::<Vec<_>>();
    let input_values = (0..channels * width)
        .map(|index| ((index * 11 % 31) as f32 - 15.0) / 23.0)
        .collect::<Vec<_>>();
    for zeros in [false, true] {
        let layer = Conv2d::new(
            new_f32(vec![channels, channels, 1, 1], weights.clone()),
            Some(new_f32(vec![channels], bias.clone())),
            [1, 1],
            [0; 4],
            1,
            zeros,
            platforms()[0],
        )
        .unwrap();
        assert_eq!(layer.plan.exact_sparse, zeros);
        let output = layer
            .forward(
                &arithmetic(),
                none(),
                false,
                &new_f32(vec![1, channels, 1, width], input_values.clone()),
            )
            .unwrap();

        for row in 0..channels {
            for column in 0..width {
                let expected = input_values[row * width + column].mul_add(scales[row], bias[row]);
                let actual = output.as_f32().unwrap()[row * width + column];
                assert_eq!(actual, expected, "row {row}, column {column}");
            }
        }
    }
}

#[test]
fn transposed_convolution_wrapper_uses_io_weight_layout() {
    for wide in [false, true] {
        let layer = ConvTranspose2d::new(
            tensor([1, 1, 2, 2], &[1.0; 4]),
            Some(tensor([1], &[0.5])),
            [2, 2],
            [0; 4],
            1,
            wide,
        )
        .unwrap();
        let output = layer
            .forward(&arithmetic(), &plus, &tensor([1, 1, 1, 2], &[1.0, 2.0]))
            .unwrap();
        assert_eq!(output.shape(), [1, 1, 2, 4]);
        assert_eq!(
            output.as_f32().unwrap(),
            &[1.5, 1.5, 2.5, 2.5, 1.5, 1.5, 2.5, 2.5]
        );
    }
}

#[test]
fn transposed_convolutions_agree() {
    let values = |length: usize, multiplier: usize| {
        (0..length)
            .map(|index| ((index * multiplier % 23) as f32 - 11.0) / 7.0)
            .collect::<Vec<_>>()
    };
    let weight = new_f32(vec![3, 4, 2, 2], values(48, 5));
    let bias = new_f32(vec![4], values(4, 3));
    let input = new_f32(vec![2, 3, 3, 5], values(90, 7));
    let options = ConvOptions {
        strides: [2, 2],
        pads: [0; 4],
        groups: 1,
        packed_pointwise: false,
    };
    let expected = conv_transpose(
        &arithmetic(),
        &[input.duplicate(), weight.duplicate(), bias.duplicate()],
        &options,
        &plus,
    )
    .unwrap();
    assert_eq!(expected.shape(), [2, 4, 6, 10]);
    for wide in [false, true] {
        let layer = ConvTranspose2d::new(
            weight.duplicate(),
            Some(bias.duplicate()),
            [2, 2],
            [0; 4],
            1,
            wide,
        )
        .unwrap();
        let actual = layer.forward(&arithmetic(), &plus, &input).unwrap();
        assert_tensors_close(&actual, &expected);
    }
}

#[test]
fn transposed_convolutions_read_no_bias_without_a_batch() {
    let options = ConvOptions {
        strides: [1, 1],
        pads: [0; 4],
        groups: 1,
        packed_pointwise: false,
    };
    let weight = new_f32(vec![1, 4, 3, 3], vec![1.0; 36]);
    let bias = new_f32(vec![2], vec![1.0; 2]);
    let transposed = |batch: usize| {
        let input = new_f32(vec![batch, 1, 2, 2], vec![1.0; batch * 4]);
        conv_transpose(
            &arithmetic(),
            &[input, weight.duplicate(), bias.duplicate()],
            &options,
            &plus,
        )
    };
    assert_eq!(transposed(0).unwrap().shape(), [0, 4, 4, 4]);
    assert!(matches!(transposed(1), Err(TensorError::Bias)));
}

#[test]
fn doubling_layers_take_planes_without_cells_where_there_is_no_batch() {
    let layer = ConvTranspose2d::new(
        tensor([3, 2, 2, 2], &[1.0; 24]),
        Some(tensor([2], &[0.5; 2])),
        [2, 2],
        [0; 4],
        1,
        true,
    )
    .unwrap();
    let forward = |input: Tensor<f32>| layer.forward(&arithmetic(), &plus, &input);
    let empty = |shape: [usize; 4]| tensor(shape, &[]);
    assert_eq!(forward(empty([0, 3, 0, 5])).unwrap().shape(), [0, 2, 0, 10]);
    assert_eq!(forward(empty([0, 3, 4, 5])).unwrap().shape(), [0, 2, 8, 10]);
    assert!(matches!(forward(empty([1, 3, 0, 5])), Err(TensorError::Geometry)));
    assert!(matches!(forward(empty([0, 2, 4, 5])), Err(TensorError::Channels)));
    let numbers = Tensor::from_i64([1, 3], vec![1, 2, 3]).unwrap();
    assert!(matches!(forward(numbers), Err(TensorError::Rank)));
    let numbers = Tensor::from_i64([1, 3, 1, 1], vec![1, 2, 3]).unwrap();
    assert!(matches!(forward(numbers), Err(TensorError::ExpectedF32)));
}

#[test]
fn transposed_layers_count_their_channels_where_a_bias_does() {
    let weight = || new_f32(vec![0, usize::MAX, 1, 1], Vec::new());
    let layer = |bias: Option<Tensor<f32>>| {
        ConvTranspose2d::new(weight(), bias, [1, 1], [0; 4], 2, false)
    };
    assert!(layer(None).is_ok());
    assert!(matches!(
        layer(Some(tensor([1], &[0.5]))),
        Err(TensorError::ShapeOverflow)
    ));
}

#[test]
fn large_pointwise_work_is_told_by_its_size() {
    assert!(!large_pointwise_work(1, 64, 64, 8, 8));
    assert!(large_pointwise_work(1, 1_024, 1_024, 64, 64));
    assert!(!large_pointwise_work(0, 1_024, 1_024, 64, 64));
}

fn conv_options(groups: usize) -> ConvOptions {
    ConvOptions {
        strides: [1, 1],
        pads: [0; 4],
        groups,
        packed_pointwise: false,
    }
}

#[test]
fn grouped_convolutions_keep_groups_apart() {
    let input = tensor([1, 2, 1, 2], &[1.0, 2.0, 3.0, 4.0]);
    let weight = tensor([2, 1, 1, 2], &[1.0, 10.0, 1.0, 100.0]);
    let output = conv(
        &arithmetic(),
        &[input.duplicate(), weight.duplicate()],
        &conv_options(2),
        none(),
    )
    .unwrap();
    assert_eq!(output.shape(), [1, 2, 1, 1]);
    assert_eq!(output.as_f32().unwrap(), &[21.0, 403.0]);
    assert!(matches!(
        conv(&arithmetic(), &[input], &conv_options(1), none()),
        Err(TensorError::InputCount)
    ));
}

#[test]
fn batch_normalization_folds_into_weights() {
    let weight = tensor([2, 1, 1, 2], &[1.0, 2.0, 3.0, 4.0]);
    let norm = Norm {
        gamma: vec![2.0, 0.5],
        beta: vec![1.0, -1.0],
        mean: vec![0.5, 0.25],
        variance: vec![1.0, 4.0],
    };
    let scale = |gamma: f32, variance: f32| gamma / variance.sqrt();
    let times = |weight: f32, scale: f32| weight * scale;
    let shift = |bias: f32, mean: f32, scale: f32, beta: f32| (bias - mean) * scale + beta;
    let (folded, bias) =
        fold_batch_norm(&scale, &times, &shift, 0.0, &weight, None, &norm, 2, false).unwrap();
    assert_eq!(folded.as_f32().unwrap(), &[2.0, 4.0, 0.75, 1.0]);
    assert_eq!(bias.as_f32().unwrap(), &[0.0, -1.0625]);
    let fold = |shape: [usize; 4], norm: &Norm<f32>, channels: usize, transposed: bool| {
        let weight = tensor(shape, &[]);
        fold_batch_norm(&scale, &times, &shift, 0.0, &weight, None, norm, channels, transposed)
    };
    for (shape, transposed) in [([2, 0, 1, 1], false), ([3, 2, 0, 2], true)] {
        let (folded, bias) = fold(shape, &norm, 2, transposed).unwrap();
        assert_eq!(folded.shape(), shape);
        assert_eq!(bias.as_f32().unwrap(), &[0.0, -1.0625]);
    }
    let nothing = Norm {
        gamma: Vec::new(),
        beta: Vec::new(),
        mean: Vec::new(),
        variance: Vec::new(),
    };
    assert!(matches!(fold([0, 2, 1, 1], &nothing, 0, false), Err(TensorError::Features)));
    assert!(matches!(fold([0, 2, 1, 1], &norm, 2, true), Err(TensorError::Features)));

    let input = tensor([1, 1, 1, 3], &[1.0, -1.0, 2.0]);
    let plain = conv(
        &arithmetic(),
        &[input.duplicate(), weight],
        &conv_options(1),
        none(),
    )
    .unwrap();
    let parameters = |gamma: f32, beta: f32, mean: f32, variance: f32| {
        let scale = gamma / variance.sqrt();
        (scale, beta - mean * scale)
    };
    let expected = batch_normalization(
        &[
            plain,
            tensor([2], &norm.gamma),
            tensor([2], &norm.beta),
            tensor([2], &norm.mean),
            tensor([2], &norm.variance),
        ],
        &parameters,
        &fused,
    )
    .unwrap();
    let actual = conv(
        &arithmetic(),
        &[input, folded, bias],
        &conv_options(1),
        none(),
    )
    .unwrap();
    assert_tensors_close(&actual, &expected);
}

#[test]
fn fuses_intraclass_weights_into_center_axes() {
    let (out_channels, in_channels, kernel) = (2, 2, 3);
    let symmetric = (0..out_channels * in_channels * kernel * kernel)
        .map(|index| index as f32)
        .collect::<Vec<_>>();
    let vertical = (0..out_channels * in_channels * kernel)
        .map(|index| 100.0 + index as f32)
        .collect::<Vec<_>>();
    let horizontal = (0..out_channels * in_channels * kernel)
        .map(|index| 200.0 + index as f32)
        .collect::<Vec<_>>();
    let (weight, bias) = fuse_intraclass_conv(
        &plus,
        &new_f32(vec![out_channels, in_channels, kernel, kernel], symmetric.clone()),
        &new_f32(vec![out_channels], vec![1.0, 2.0]),
        &new_f32(vec![out_channels, in_channels, kernel, 1], vertical.clone()),
        &new_f32(vec![out_channels], vec![3.0, 4.0]),
        &new_f32(vec![out_channels, in_channels, 1, kernel], horizontal.clone()),
        &new_f32(vec![out_channels], vec![5.0, 6.0]),
    )
    .unwrap();

    let weight = weight.as_f32().unwrap();
    let center = kernel / 2;
    for output in 0..out_channels {
        for input in 0..in_channels {
            let branch_offset = (output * in_channels + input) * kernel;
            let symmetric_offset = branch_offset * kernel;
            for row in 0..kernel {
                for column in 0..kernel {
                    let mut expected = symmetric[symmetric_offset + row * kernel + column];
                    if column == center {
                        expected += vertical[branch_offset + row];
                    }
                    if row == center {
                        expected += horizontal[branch_offset + column];
                    }
                    assert_eq!(weight[symmetric_offset + row * kernel + column], expected);
                }
            }
        }
    }
    assert_eq!(bias.as_f32().unwrap(), [9.0, 12.0]);
}

#[test]
fn fused_intraclass_conv_matches_three_padded_branches() {
    let (out_channels, in_channels, kernel) = (2, 3, 5);
    let platform = platforms()[0];
    let patterned = |length: usize, multiplier: usize, scale: f32| {
        (0..length)
            .map(|index| ((index * multiplier % 31) as f32 - 15.0) * scale)
            .collect::<Vec<_>>()
    };
    let symmetric_weight = new_f32(
        vec![out_channels, in_channels, kernel, kernel],
        patterned(out_channels * in_channels * kernel * kernel, 7, 0.01),
    );
    let vertical_weight = new_f32(
        vec![out_channels, in_channels, kernel, 1],
        patterned(out_channels * in_channels * kernel, 11, 0.015),
    );
    let horizontal_weight = new_f32(
        vec![out_channels, in_channels, 1, kernel],
        patterned(out_channels * in_channels * kernel, 13, 0.012),
    );
    let symmetric_bias = new_f32(vec![out_channels], vec![0.07, -0.03]);
    let vertical_bias = new_f32(vec![out_channels], vec![-0.02, 0.05]);
    let horizontal_bias = new_f32(vec![out_channels], vec![0.01, -0.04]);
    let padding = kernel / 2;
    let layer = |weight: &Tensor<f32>, bias: &Tensor<f32>, pads: [usize; 4]| {
        convolution(
            weight.duplicate(),
            Some(bias.duplicate()),
            [1, 1],
            pads,
            1,
            platform,
        )
    };

    let symmetric_conv = layer(&symmetric_weight, &symmetric_bias, [padding; 4]);
    let vertical_conv = layer(&vertical_weight, &vertical_bias, [padding, 0, padding, 0]);
    let horizontal_conv = layer(&horizontal_weight, &horizontal_bias, [0, padding, 0, padding]);
    let (fused_weight, fused_bias) = fuse_intraclass_conv(
        &plus,
        &symmetric_weight,
        &symmetric_bias,
        &vertical_weight,
        &vertical_bias,
        &horizontal_weight,
        &horizontal_bias,
    )
    .unwrap();
    let fused_conv = layer(&fused_weight, &fused_bias, [padding; 4]);
    let input = new_f32(
        vec![1, in_channels, 7, 8],
        patterned(in_channels * 7 * 8, 17, 0.02),
    );

    let expected = sum(
        sum(
            forward(&symmetric_conv, &input),
            forward(&vertical_conv, &input),
        ),
        forward(&horizontal_conv, &input),
    );
    let actual = forward(&fused_conv, &input);
    assert_eq!(actual.shape(), expected.shape());
    for (index, (actual, expected)) in actual
        .as_f32()
        .unwrap()
        .iter()
        .zip(expected.as_f32().unwrap())
        .enumerate()
    {
        let tolerance = 2e-5 * expected.abs().max(1.0);
        assert!(
            (actual - expected).abs() <= tolerance,
            "output {index} differs: fused={actual}, branches={expected}"
        );
    }
}

fn factor(spatial: usize, kernels: &[f32]) -> Option<(Vec<f32>, Vec<f32>)> {
    let rows = kernels.chunks(spatial).collect::<Vec<_>>();
    if rows.is_empty() {
        return Some((vec![0.0; spatial], Vec::new()));
    }
    let energy = |row: &[f32]| row.iter().map(|&value| f64::from(value).powi(2)).sum::<f64>();
    let mut best = 0;
    for (index, row) in rows.iter().enumerate() {
        if energy(row) > energy(rows[best]) {
            best = index;
        }
    }
    let mut direction = rows[best].iter().map(|&value| f64::from(value)).collect::<Vec<_>>();
    let product = |row: &[f32], direction: &[f64]| {
        row.iter()
            .zip(direction)
            .map(|(&value, &direction)| f64::from(value) * direction)
            .sum::<f64>()
    };
    for _ in 0..4 {
        let norm = direction.iter().map(|value| value * value).sum::<f64>().sqrt();
        if norm == 0.0 {
            return Some((vec![0.0; spatial], vec![0.0; rows.len()]));
        }
        for value in &mut direction {
            *value /= norm;
        }
        let scales = rows.iter().map(|row| product(row, &direction)).collect::<Vec<_>>();
        for (index, value) in direction.iter_mut().enumerate() {
            *value = rows
                .iter()
                .zip(&scales)
                .map(|(row, scale)| f64::from(row[index]) * scale)
                .sum();
        }
    }
    let norm = direction.iter().map(|value| value * value).sum::<f64>().sqrt();
    for value in &mut direction {
        *value /= norm;
    }
    let scales = rows.iter().map(|row| product(row, &direction) as f32).collect();
    Some((direction.iter().map(|&value| value as f32).collect(), scales))
}

fn factors(
    weight: &Tensor<f32>,
    in_channels: usize,
    out_channels: usize,
    kernel: usize,
) -> Result<(Tensor<f32>, Tensor<f32>), FactorError> {
    let accept = |source: Vec<f32>, depthwise: Vec<f32>, pointwise: Vec<f32>, spatial: usize| {
        let mut error: f32 = 0.0;
        for output in 0..out_channels {
            for input in 0..in_channels {
                for index in 0..spatial {
                    let place = output * in_channels + input;
                    let product = pointwise[place] * depthwise[input * spatial + index];
                    error = error.max((source[place * spatial + index] - product).abs());
                }
            }
        }
        error <= 1.0e-5
    };
    factor_rank_one_conv_weight(
        weight,
        in_channels,
        out_channels,
        kernel,
        &|value: f32| value.is_finite(),
        &|kernels: Vec<f32>, spatial: usize| factor(spatial, &kernels),
        &accept,
    )
}

#[test]
fn rank_one_conv_matches_dense_fused_weight() {
    let (in_channels, out_channels, kernel, height, width) = (4, 5, 9, 11, 19);
    let platform = platforms()[0];
    let spatial = kernel * kernel;
    let depthwise = (0..in_channels * spatial)
        .map(|index| ((index * 17 % 43) as f32 - 21.0) / 97.0)
        .collect::<Vec<_>>();
    let pointwise = (0..out_channels * in_channels)
        .map(|index| ((index * 11 % 29) as f32 - 14.0) / 31.0)
        .collect::<Vec<_>>();
    let mut fused = vec![0.0; out_channels * in_channels * spatial];
    for output_channel in 0..out_channels {
        for input_channel in 0..in_channels {
            let scale = pointwise[output_channel * in_channels + input_channel];
            let offset = (output_channel * in_channels + input_channel) * spatial;
            for index in 0..spatial {
                fused[offset + index] = scale * depthwise[input_channel * spatial + index];
            }
        }
    }
    let weight = new_f32(vec![out_channels, in_channels, kernel, kernel], fused);
    let bias = new_f32(
        vec![out_channels],
        (0..out_channels)
            .map(|channel| (channel as f32 - 2.0) / 13.0)
            .collect(),
    );
    let dense = convolution(
        weight.duplicate(),
        Some(bias.duplicate()),
        [1, 1],
        [kernel / 2; 4],
        1,
        platform,
    );
    let (depthwise, pointwise) = factors(&weight, in_channels, out_channels, kernel).unwrap();
    let depthwise = convolution(
        depthwise,
        None,
        [1, 1],
        [kernel / 2; 4],
        in_channels,
        platform,
    );
    let pointwise = convolution(pointwise, Some(bias), [1, 1], [0; 4], 1, platform);
    let input = new_f32(
        vec![1, in_channels, height, width],
        (0..in_channels * height * width)
            .map(|index| ((index * 23 % 61) as f32 - 30.0) / 37.0)
            .collect(),
    );

    let expected = forward(&dense, &input);
    let actual = forward_depthwise_pointwise(
        &arithmetic(),
        &depthwise,
        &pointwise,
        none(),
        false,
        platform,
        &input,
    )
    .unwrap();
    let maximum_error = expected
        .as_f32()
        .unwrap()
        .iter()
        .zip(actual.as_f32().unwrap())
        .map(|(expected, actual)| (expected - actual).abs())
        .fold(0.0f32, f32::max);
    assert!(
        maximum_error < 2.0e-5,
        "rank-one convolution maximum error: {maximum_error}"
    );
}

#[test]
fn rank_one_factorization_rejects_nonseparable_weight() {
    let mut values = vec![0.0; 2 * 3 * 3];
    values[0] = 1.0;
    values[3 * 3 + 1] = 1.0;
    let weight = new_f32(vec![2, 1, 3, 3], values);
    assert!(factors(&weight, 1, 2, 3).is_err());
}

#[test]
fn rank_one_factorization_tells_every_refusal() {
    let weight = new_f32(vec![1, 1, 1, 1], vec![2.0]);
    assert!(matches!(factors(&weight, 1, 1, 2), Err(FactorError::Kernel)));
    assert!(matches!(factors(&weight, 1, 2, 1), Err(FactorError::Tensor(_))));
    let weight = new_f32(vec![1, 1, 1, 1], vec![f32::NAN]);
    assert!(matches!(factors(&weight, 1, 1, 1), Err(FactorError::NonFinite)));
    let weight = new_f32(vec![1, 1, 1, 1], vec![2.0]);
    let found = factor_rank_one_conv_weight(
        &weight,
        1,
        1,
        1,
        &|_value: f32| true,
        &|_kernels: Vec<f32>, _cells: usize| None,
        &|_source: Vec<f32>, _first: Vec<f32>, _second: Vec<f32>, _cells: usize| true,
    );
    assert!(matches!(found, Err(FactorError::Degenerate)));
    let weight = new_f32(vec![0, usize::MAX, 3, 3], Vec::new());
    assert!(matches!(
        factors(&weight, usize::MAX, 0, 3),
        Err(FactorError::Tensor(TensorError::ShapeOverflow))
    ));
    let weight = new_f32(vec![0, 1, 3, 3], Vec::new());
    let (depthwise, pointwise) = factors(&weight, 1, 0, 3).unwrap();
    assert_eq!(depthwise.shape(), [1, 1, 3, 3]);
    assert_eq!(pointwise.shape(), [0, 1, 1, 1]);
}

#[test]
fn weights_without_rows_are_interleaved_by_no_plan() {
    let mut refused = 0;
    for platform in platforms() {
        for (channels, kernel) in [(64, 1), (8, 3), (1, 5)] {
            let weight = new_f32(vec![0, channels, kernel, kernel], Vec::new());
            let geometry = ConvGeometry {
                output_channels: 0,
                channels_per_group: channels,
                kernel_height: kernel,
                kernel_width: kernel,
                strides: [1, 1],
                pads: [0; 4],
                groups: 1,
            };
            let plan = plan_conv(&geometry, false, platform);
            let layer = Conv2d::new(weight, None, [1, 1], [0; 4], 1, false, platform);
            if plan.large_pointwise || plan.block_rows.is_some() {
                assert!(matches!(layer, Err(TensorError::Pack)));
                refused += 1;
            } else {
                assert_eq!(layer.unwrap().plan, plan);
            }
        }
    }
    assert!(refused > 0);
}

#[test]
fn average_pooling_tells_how_many_cells_count() {
    let input = tensor([1, 1, 2, 2], &[1.0, 2.0, 3.0, 4.0]);
    let mean = |values: Vec<f32>, count: usize| values.iter().sum::<f32>() / count as f32;
    let mut options = PoolOptions {
        kernel: [2, 2],
        strides: [2, 2],
        pads: [1, 1, 1, 1],
        ceil_mode: false,
        count_include_pad: false,
    };
    let output = pool(&[input.duplicate()], &options, &mean).unwrap();
    assert_eq!(output.shape(), [1, 1, 2, 2]);
    assert_eq!(output.as_f32().unwrap(), &[1.0, 2.0, 3.0, 4.0]);
    options.count_include_pad = true;
    let wide = PoolOptions {
        kernel: [usize::MAX, usize::MAX],
        strides: [1, 1],
        pads: [usize::MAX - 2, usize::MAX - 2, 0, 0],
        ceil_mode: false,
        count_include_pad: false,
    };
    let planes = |count: usize| tensor([count, 1, 2, 2], &vec![1.0; count * 4]);
    assert_eq!(pool(&[planes(0)], &wide, &mean).unwrap().shape(), [0, 1, 1, 1]);
    assert!(matches!(
        pool(&[planes(1)], &wide, &mean),
        Err(TensorError::KernelTooLarge)
    ));
    let output = pool(&[input], &options, &mean).unwrap();
    assert_eq!(output.as_f32().unwrap(), &[0.25, 0.5, 0.75, 1.0]);
}
