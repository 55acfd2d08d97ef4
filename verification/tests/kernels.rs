use ppocr::accumulate::Arithmetic;
use ppocr::convolution::{
    depthwise_conv2d_same, depthwise_conv2d_same_3x3_stride2, spatial_conv2d_packed,
};
use ppocr::elementwise::{
    affine_in_place, axpy, fill, max_pool_2x2_same_upper, residual_mul_in_place, rows_in_place,
    unary_in_place, zip_in_place,
};
use ppocr::kernels::{
    cached_column_block, depth_block, gemm_16x6_packed, gemm_4x16_packed, gemm_6x16_packed,
    gemm_packed_left_blocked_6, gemm_packed_left_cached_blocked_16,
    gemm_packed_left_with_activation, gemm_packed_panels, gemm_rows, gemm_with_activation,
    linear_6x16_packed, linear_right_transposed,
};
use ppocr::packing::{pack_rows, PackError};
use ppocr::panels::{
    im2col, pack_spatial_panel, spatial_conv2d_direct, spatial_panel_working_set_fits,
};
use ppocr::sparse::{gemm_4x16_sparse, gemm_sparse_packed_left, gemm_sparse_packed_panels};
use ppocr::window::Window;

type Unary = fn(f32) -> f32;

fn fused(a: f32, b: f32, c: f32) -> f32 {
    a.mul_add(b, c)
}

fn arithmetic() -> Arithmetic<f32, fn(f32, f32, f32) -> f32> {
    Arithmetic { zero: 0.0, mul_add: fused }
}

fn silu(value: f32) -> f32 {
    value / (1.0 + (-value).exp())
}

fn relu(value: f32) -> f32 {
    value.max(0.0)
}

fn none() -> Option<&'static Unary> {
    None
}

fn softmax(mut row: Vec<f32>) -> Vec<f32> {
    let maximum = row.iter().copied().fold(f32::NEG_INFINITY, f32::max);
    let mut sum = 0.0;
    for value in &mut row {
        *value = (*value - maximum).exp();
        sum += *value;
    }
    for value in &mut row {
        *value /= sum;
    }
    row
}

fn assert_close(expected: &[f32], actual: &[f32], tolerance: f32) {
    assert_eq!(expected.len(), actual.len());
    let maximum_error = expected
        .iter()
        .zip(actual)
        .map(|(expected, actual)| (expected - actual).abs())
        .fold(0.0f32, f32::max);
    assert!(
        maximum_error <= tolerance,
        "maximum error {maximum_error} exceeded {tolerance}"
    );
}

fn interleave(source: &[f32], rows: usize, inner: usize, block: usize) -> Vec<f32> {
    let mut packed = Vec::with_capacity(source.len());
    for row_start in (0..rows).step_by(block) {
        let block_rows = (rows - row_start).min(block);
        for index in 0..inner {
            for row in 0..block_rows {
                packed.push(source[(row_start + row) * inner + index]);
            }
        }
    }
    packed
}

#[test]
fn packed_gemm_matches_row_major_gemm() {
    let rows = 28;
    let inner = 7;
    let columns = 19;
    let left = (0..rows * inner)
        .map(|index| ((index * 17 % 29) as f32 - 14.0) / 11.0)
        .collect::<Vec<_>>();
    let right = (0..inner * columns)
        .map(|index| ((index * 13 % 31) as f32 - 15.0) / 9.0)
        .collect::<Vec<_>>();
    let bias = (0..rows)
        .map(|row| (row as f32 - 8.0) / 7.0)
        .collect::<Vec<_>>();
    let packed = interleave(&left, rows, inner, 12);
    assert_eq!(pack_rows(&left, rows, 12).unwrap(), packed);
    let mut expected = vec![0.0; rows * columns];
    let mut actual = vec![0.0; rows * columns];
    gemm_with_activation(
        &arithmetic(),
        &mut expected,
        &left,
        &right,
        rows,
        inner,
        columns,
        Some(&bias),
        none(),
    );
    gemm_packed_left_with_activation(
        &arithmetic(),
        &mut actual,
        &packed,
        &right,
        rows,
        inner,
        columns,
        Some(&bias),
        none(),
    );
    let maximum_error = expected
        .iter()
        .zip(&actual)
        .map(|(expected, actual)| (expected - actual).abs())
        .fold(0.0f32, f32::max);
    assert!(maximum_error < 2e-6, "maximum error: {maximum_error}");
}

#[test]
fn blocked_6x16_gemm_matches_scalar_across_row_depth_and_column_tails() {
    let rows = 10;
    let inner = 319;
    let columns = 25;
    let left = (0..rows * inner)
        .map(|index| ((index * 19 % 59) as f32 - 29.0) / 31.0)
        .collect::<Vec<_>>();
    let right = (0..inner * columns)
        .map(|index| ((index * 11 % 43) as f32 - 21.0) / 29.0)
        .collect::<Vec<_>>();
    let bias = (0..rows)
        .map(|row| (row as f32 - 4.0) / 13.0)
        .collect::<Vec<_>>();
    let packed = interleave(&left, rows, inner, 6);
    let mut expected = vec![0.0; rows * columns];
    for row in 0..rows {
        for column in 0..columns {
            let mut sum = bias[row];
            for index in 0..inner {
                sum = left[row * inner + index].mul_add(right[index * columns + column], sum);
            }
            expected[row * columns + column] = silu(sum);
        }
    }
    let mut actual = vec![0.0; rows * columns];
    gemm_packed_left_blocked_6(
        &arithmetic(),
        &mut actual,
        &packed,
        &right,
        rows,
        inner,
        columns,
        Some(&bias),
        Some(&(silu as Unary)),
    );
    let maximum_error = expected
        .iter()
        .zip(&actual)
        .map(|(expected, actual)| (expected - actual).abs())
        .fold(0.0f32, f32::max);
    assert!(maximum_error < 3e-5, "maximum error: {maximum_error}");
}

#[test]
fn cached_16x6_gemm_matches_scalar_across_depth_and_column_tails() {
    let rows = 32;
    let inner = 319;
    let columns = 25;
    let left = (0..rows * inner)
        .map(|index| ((index * 19 % 59) as f32 - 29.0) / 31.0)
        .collect::<Vec<_>>();
    let right = (0..inner * columns)
        .map(|index| ((index * 11 % 43) as f32 - 21.0) / 29.0)
        .collect::<Vec<_>>();
    let bias = (0..rows)
        .map(|row| (row as f32 - 4.0) / 13.0)
        .collect::<Vec<_>>();
    let packed = interleave(&left, rows, inner, 16);
    let mut expected = vec![0.0; rows * columns];
    for row in 0..rows {
        for column in 0..columns {
            let mut sum = bias[row];
            for index in 0..inner {
                sum = left[row * inner + index].mul_add(right[index * columns + column], sum);
            }
            expected[row * columns + column] = silu(sum);
        }
    }
    let mut actual = vec![0.0; expected.len()];
    gemm_packed_left_cached_blocked_16(
        &arithmetic(),
        &mut actual,
        &packed,
        &right,
        rows,
        inner,
        columns,
        Some(&bias),
        Some(&(silu as Unary)),
    );
    let maximum_error = expected
        .iter()
        .zip(&actual)
        .map(|(expected, actual)| (expected - actual).abs())
        .fold(0.0f32, f32::max);
    assert!(maximum_error < 3e-5, "maximum error: {maximum_error}");
}

#[test]
fn linear_scalar_fallback_decodes_packed_sixteen_column_weights() {
    let rows = 13;
    let inner = 9;
    let columns = 22;
    let input = (0..rows * inner)
        .map(|index| ((index * 17 % 41) as f32 - 20.0) / 23.0)
        .collect::<Vec<_>>();
    let row_major_weight = (0..columns * inner)
        .map(|index| ((index * 11 % 43) as f32 - 21.0) / 29.0)
        .collect::<Vec<_>>();
    let bias = (0..columns)
        .map(|column| (column as f32 - 10.0) / 31.0)
        .collect::<Vec<_>>();
    let packed_weight = interleave(&row_major_weight, columns, inner, 16);
    let mut expected = vec![0.0; rows * columns];
    for row in 0..rows {
        for column in 0..columns {
            let mut sum = bias[column];
            for index in 0..inner {
                sum = input[row * inner + index]
                    .mul_add(row_major_weight[column * inner + index], sum);
            }
            expected[row * columns + column] = silu(sum);
        }
    }
    let mut actual = vec![0.0; expected.len()];
    linear_right_transposed(
        &arithmetic(),
        &mut actual,
        &input,
        &packed_weight,
        rows,
        inner,
        columns,
        16,
        Some(&bias),
        Some(&(silu as Unary)),
    );
    assert_eq!(actual, expected);
}

#[test]
fn conditional_linear_6x16_matches_large_layout_with_full_row_softmax() {
    let rows = 40;
    let inner = 192;
    let columns = 6_906;
    let input = (0..rows * inner)
        .map(|index| ((index * 17 % 47) as f32 - 23.0) / 41.0)
        .collect::<Vec<_>>();
    let row_major_weight = (0..columns * inner)
        .map(|index| ((index * 11 % 53) as f32 - 26.0) / 97.0)
        .collect::<Vec<_>>();
    let bias = (0..columns)
        .map(|column| ((column * 7 % 37) as f32 - 18.0) / 89.0)
        .collect::<Vec<_>>();
    let packed_weight = interleave(&row_major_weight, columns, inner, 16);
    let mut expected = vec![0.0; rows * columns];
    for row in 0..rows {
        for column in 0..columns {
            let mut sum = bias[column];
            for index in 0..inner {
                sum = input[row * inner + index]
                    .mul_add(row_major_weight[column * inner + index], sum);
            }
            expected[row * columns + column] = sum;
        }
        let mapped = softmax(expected[row * columns..(row + 1) * columns].to_vec());
        expected[row * columns..(row + 1) * columns].copy_from_slice(&mapped);
    }
    let mut actual = vec![0.0; expected.len()];
    linear_right_transposed(
        &arithmetic(),
        &mut actual,
        &input,
        &packed_weight,
        rows,
        inner,
        columns,
        16,
        Some(&bias),
        none(),
    );
    rows_in_place(&mut actual, columns, &softmax);
    let maximum_error = expected
        .iter()
        .zip(&actual)
        .map(|(expected, actual)| (expected - actual).abs())
        .fold(0.0f32, f32::max);
    assert!(maximum_error < 2e-7, "maximum error: {maximum_error}");
    for row in actual.chunks_exact(columns) {
        assert!((row.iter().sum::<f32>() - 1.0).abs() < 2e-5);
    }
}

#[test]
fn direct_spatial_micro_panels_match_s1_s2_padding_and_column_tails() {
    let cases = [
        (5usize, 16usize, [1, 1], [1, 1, 1, 1], 16usize),
        (7, 15, [2, 2], [1, 1, 1, 1], 8),
        (6, 14, [1, 1], [1, 1, 1, 1], 14),
    ];
    let input_channels = 3;
    let output_channels = 16;
    let kernel_height = 3;
    let kernel_width = 3;
    let patch_size = input_channels * kernel_height * kernel_width;
    let dense_weight = (0..output_channels * patch_size)
        .map(|index| ((index * 17 % 47) as f32 - 23.0) / 29.0)
        .collect::<Vec<_>>();
    let bias = (0..output_channels)
        .map(|channel| (channel as f32 - 7.0) / 19.0)
        .collect::<Vec<_>>();
    let packed_weight = interleave(&dense_weight, output_channels, patch_size, 6);
    assert!(spatial_panel_working_set_fits(
        packed_weight.len(),
        patch_size,
        output_channels
    ));

    for (input_height, input_width, strides, pads, expected_width) in cases {
        let output_height = (input_height + pads[0] + pads[2] - kernel_height) / strides[0] + 1;
        let output_width = (input_width + pads[1] + pads[3] - kernel_width) / strides[1] + 1;
        assert_eq!(output_width, expected_width);
        let input = (0..input_channels * input_height * input_width)
            .map(|index| ((index * 13 % 41) as f32 - 20.0) / 23.0)
            .collect::<Vec<_>>();
        let output_plane = output_height * output_width;
        let mut expected = vec![0.0; output_channels * output_plane];
        for output_channel in 0..output_channels {
            for output_y in 0..output_height {
                for output_x in 0..output_width {
                    let mut sum = bias[output_channel];
                    for input_channel in 0..input_channels {
                        for kernel_y in 0..kernel_height {
                            let padded_y = output_y * strides[0] + kernel_y;
                            if padded_y < pads[0] || padded_y - pads[0] >= input_height {
                                continue;
                            }
                            let input_y = padded_y - pads[0];
                            for kernel_x in 0..kernel_width {
                                let padded_x = output_x * strides[1] + kernel_x;
                                if padded_x < pads[1] || padded_x - pads[1] >= input_width {
                                    continue;
                                }
                                let input_x = padded_x - pads[1];
                                let input_value = input[input_channel * input_height * input_width
                                    + input_y * input_width
                                    + input_x];
                                let patch_index = (input_channel * kernel_height + kernel_y)
                                    * kernel_width
                                    + kernel_x;
                                sum = input_value.mul_add(
                                    dense_weight[output_channel * patch_size + patch_index],
                                    sum,
                                );
                            }
                        }
                    }
                    expected[output_channel * output_plane + output_y * output_width + output_x] =
                        relu(sum);
                }
            }
        }

        for single_thread in [true, false] {
            let mut actual = vec![0.0; expected.len()];
            spatial_conv2d_direct(
                &arithmetic(),
                single_thread,
                &mut actual,
                &input,
                &packed_weight,
                Some(&bias),
                &Window {
                    channels: input_channels,
                    input_height,
                    input_width,
                    kernel_height,
                    kernel_width,
                    stride_y: strides[0],
                    stride_x: strides[1],
                    pad_y: pads[0],
                    pad_x: pads[1],
                },
                output_channels,
                output_height,
                output_width,
                Some(&(relu as Unary)),
            );
            let maximum_error = expected
                .iter()
                .zip(&actual)
                .map(|(expected, actual)| (expected - actual).abs())
                .fold(0.0f32, f32::max);
            assert!(
                maximum_error < 3e-5,
                "shape {input_height}x{input_width}, stride {strides:?}, output width {output_width}, maximum error {maximum_error}"
            );
        }
    }
}

#[test]
fn exact_sparse_gemm_handles_dynamic_column_tails() {
    let rows = 8;
    let inner = 7;
    let row_offsets = [0, 3, 5];
    let indices = [0, 2, 6, 1, 5];
    let weights = [
        1.0, -0.5, 0.25, 2.0, 0.75, 1.5, -1.0, 0.5, -2.0, 0.125, 0.375, 1.25, 0.5, -0.75, 2.0, 1.0,
        -1.5, 0.25, 0.625, -0.125,
    ];
    let bias = [0.5, -0.25, 1.0, -1.0, 0.75, 0.0, -0.5, 0.25];

    for columns in [1, 15, 16, 17, 31, 32, 33] {
        let right = (0..inner * columns)
            .map(|index| ((index * 13 % 37) as f32 - 18.0) / 11.0)
            .collect::<Vec<_>>();
        let mut actual = vec![0.0; rows * columns];
        gemm_sparse_packed_left(
            &arithmetic(),
            &mut actual,
            &right,
            rows,
            inner,
            columns,
            Some(&bias),
            &row_offsets,
            &indices,
            &weights,
            none(),
        );

        let mut expected = vec![0.0; rows * columns];
        for block in 0..2 {
            for row in 0..4 {
                for column in 0..columns {
                    let output_row = block * 4 + row;
                    let mut sum = bias[output_row];
                    for entry in row_offsets[block]..row_offsets[block + 1] {
                        sum = f32::mul_add(
                            weights[entry * 4 + row],
                            right[indices[entry] as usize * columns + column],
                            sum,
                        );
                    }
                    expected[output_row * columns + column] = sum;
                }
            }
        }
        assert_eq!(actual, expected, "column count {columns}");
    }
}

#[test]
fn depthwise_same_matches_scalar_reference() {
    for kernel in [3, 5, 7, 9] {
        for (height, width) in [
            (2, 3),
            (9, 7),
            (9, 8),
            (9, 9),
            (9, 15),
            (9, 16),
            (9, 17),
            (9, 31),
            (9, 32),
            (9, 33),
            (9, 37),
            (11, 41),
        ] {
            let input = (0..height * width)
                .map(|index| ((index * 17 % 43) as f32 - 21.0) / 13.0)
                .collect::<Vec<_>>();
            let weights = (0..kernel * kernel)
                .map(|index| ((index * 11 % 31) as f32 - 15.0) / 19.0)
                .collect::<Vec<_>>();
            let bias = -0.375;
            let padding = kernel / 2;
            let mut expected = vec![0.0; input.len()];
            for y in 0..height {
                for x in 0..width {
                    let mut sum = bias;
                    for kernel_y in 0..kernel {
                        let padded_y = y + kernel_y;
                        if padded_y < padding || padded_y - padding >= height {
                            continue;
                        }
                        for kernel_x in 0..kernel {
                            let padded_x = x + kernel_x;
                            if padded_x < padding || padded_x - padding >= width {
                                continue;
                            }
                            sum = input[(padded_y - padding) * width + padded_x - padding]
                                .mul_add(weights[kernel_y * kernel + kernel_x], sum);
                        }
                    }
                    expected[y * width + x] = sum;
                }
            }

            let mut actual = vec![0.0; input.len()];
            depthwise_conv2d_same(
                &arithmetic(),
                &mut actual,
                &input,
                &weights,
                height,
                width,
                kernel,
                bias,
                none(),
            );
            let maximum_error = expected
                .iter()
                .zip(&actual)
                .map(|(expected, actual)| (expected - actual).abs())
                .fold(0.0f32, f32::max);
            assert!(
                maximum_error < 2e-5,
                "kernel={kernel}, shape={height}x{width}, maximum error={maximum_error}"
            );
        }
    }
}

#[test]
fn depthwise_stride2_matches_scalar_reference() {
    for (height, width) in [
        (2usize, 3usize),
        (9, 7),
        (9, 8),
        (9, 9),
        (9, 15),
        (9, 16),
        (9, 17),
        (9, 18),
        (9, 19),
        (9, 20),
        (9, 31),
        (9, 32),
        (9, 33),
        (9, 34),
        (9, 37),
        (10, 38),
        (47, 92),
    ] {
        let input = (0..height * width)
            .map(|index| ((index * 17 % 43) as f32 - 21.0) / 13.0)
            .collect::<Vec<_>>();
        let weights = (0..9)
            .map(|index| ((index * 11 % 31) as f32 - 15.0) / 19.0)
            .collect::<Vec<_>>();
        let bias = -0.375;
        let output_height = height.div_ceil(2);
        let output_width = width.div_ceil(2);
        let mut expected = vec![0.0; output_height * output_width];
        for output_y in 0..output_height {
            for output_x in 0..output_width {
                let mut sum = bias;
                for kernel_y in 0..3 {
                    let input_y = output_y * 2 + kernel_y;
                    if input_y == 0 || input_y > height {
                        continue;
                    }
                    for kernel_x in 0..3 {
                        let input_x = output_x * 2 + kernel_x;
                        if input_x == 0 || input_x > width {
                            continue;
                        }
                        sum = input[(input_y - 1) * width + input_x - 1]
                            .mul_add(weights[kernel_y * 3 + kernel_x], sum);
                    }
                }
                expected[output_y * output_width + output_x] = sum;
            }
        }
        let mut actual = vec![0.0; expected.len()];
        depthwise_conv2d_same_3x3_stride2(
            &arithmetic(),
            &mut actual,
            &input,
            &weights,
            height,
            width,
            bias,
            none(),
        );
        assert_eq!(actual, expected, "shape={height}x{width}");
    }
}

#[test]
fn fused_bias_softmax_matches_separate_operations() {
    let mut expected = (0..37)
        .map(|index| ((index * 17 % 43) as f32 - 21.0) / 13.0)
        .collect::<Vec<_>>();
    let bias = (0..37)
        .map(|index| ((index * 11 % 31) as f32 - 15.0) / 19.0)
        .collect::<Vec<_>>();
    let mut actual = expected.clone();
    for (value, bias) in expected.iter_mut().zip(&bias) {
        *value += bias;
    }
    let expected = softmax(expected);
    zip_in_place(&mut actual, &bias, &|value: f32, bias: f32| value + bias);
    rows_in_place(&mut actual, 37, &softmax);
    assert_eq!(actual, expected);
}

#[test]
fn fused_residual_mul_preserves_two_step_rounding() {
    let mut values = (0..37)
        .map(|index| (index as f32 - 19.0) / 7.0)
        .collect::<Vec<_>>();
    let mut expected = values.clone();
    for value in &mut expected {
        let original = *value;
        let scaled = original.mul_add(0.375, 0.0);
        *value = scaled.mul_add(1.0, original);
    }
    residual_mul_in_place(&arithmetic(), 1.0, &mut values, 0.375);
    assert_eq!(values, expected);
}

#[test]
fn relu_and_max_pool_ignore_a_single_nan() {
    let mut values = vec![-1.0; 17];
    values[0] = f32::NAN;
    unary_in_place(&mut values, &relu);
    assert_eq!(values[0], 0.0);

    let mut input = vec![1.0; 17];
    input[0] = f32::NAN;
    input[1] = 2.0;
    let mut output = vec![0.0; input.len()];
    max_pool_2x2_same_upper(&mut output, &input, 17, &f32::max);
    assert_eq!(output[0], 2.0);
}

#[test]
fn spatial_conv2d_packed_6_matches_scalar_with_padding_and_stride() {
    let cases = [
        (3, 7, 37, [1, 1], [1, 1, 1, 1], true),
        (2, 8, 65, [2, 2], [1, 1, 1, 1], false),
        (2, 9, 66, [2, 2], [1, 1, 1, 1], true),
        (3, 6, 34, [1, 1], [1, 2, 0, 1], false),
    ];
    for (input_channels, input_height, input_width, strides, pads, uses_relu) in cases {
        let kernel_height = 3;
        let kernel_width = 3;
        let output_height = (input_height + pads[0] + pads[2] - kernel_height) / strides[0] + 1;
        let output_width = (input_width + pads[1] + pads[3] - kernel_width) / strides[1] + 1;
        let input = (0..input_channels * input_height * input_width)
            .map(|index| ((index * 17 % 43) as f32 - 21.0) / 13.0)
            .collect::<Vec<_>>();
        let weight = (0..input_channels * kernel_height * kernel_width * 6)
            .map(|index| ((index * 11 % 31) as f32 - 15.0) / 19.0)
            .collect::<Vec<_>>();
        let bias = [-0.375, 0.25, -0.125, 0.5, -0.75, 0.625];
        let function = relu as Unary;
        let activation = if uses_relu { Some(&function) } else { None };
        let output_plane = output_height * output_width;
        let mut expected = vec![0.0; 6 * output_plane];
        for output_channel in 0..6 {
            for output_y in 0..output_height {
                for output_x in 0..output_width {
                    let mut sum = bias[output_channel];
                    for input_channel in 0..input_channels {
                        for kernel_y in 0..kernel_height {
                            let padded_input_y = output_y * strides[0] + kernel_y;
                            if padded_input_y < pads[0] || padded_input_y - pads[0] >= input_height
                            {
                                continue;
                            }
                            let input_y = padded_input_y - pads[0];
                            for kernel_x in 0..kernel_width {
                                let padded_input_x = output_x * strides[1] + kernel_x;
                                if padded_input_x < pads[1]
                                    || padded_input_x - pads[1] >= input_width
                                {
                                    continue;
                                }
                                let input_x = padded_input_x - pads[1];
                                let input_value = input[input_channel * input_height * input_width
                                    + input_y * input_width
                                    + input_x];
                                let weight_index = ((input_channel * kernel_height + kernel_y)
                                    * kernel_width
                                    + kernel_x)
                                    * 6
                                    + output_channel;
                                sum = input_value.mul_add(weight[weight_index], sum);
                            }
                        }
                    }
                    expected[output_channel * output_plane + output_y * output_width + output_x] =
                        if uses_relu { relu(sum) } else { sum };
                }
            }
        }

        let mut actual = vec![0.0; expected.len()];
        spatial_conv2d_packed(
            &arithmetic(),
            &mut actual,
            0,
            &input,
            &weight,
            0,
            &Window {
                channels: input_channels,
                input_height,
                input_width,
                kernel_height,
                kernel_width,
                stride_y: strides[0],
                stride_x: strides[1],
                pad_y: pads[0],
                pad_x: pads[1],
            },
            6,
            output_height,
            output_width,
            Some(&bias),
            0,
            activation,
        );
        assert_close(&expected, &actual, 2e-5);
    }
}

#[test]
fn elementwise_kernels_match_scalar_with_tail() {
    let input = (0..39)
        .map(|index| ((index * 13 % 31) as f32 - 15.0) / 7.0)
        .collect::<Vec<_>>();
    let base = (0..39)
        .map(|index| ((index * 17 % 37) as f32 - 18.0) / 11.0)
        .collect::<Vec<_>>();

    let mut expected = base.clone();
    expected
        .iter_mut()
        .zip(&input)
        .for_each(|(output, input)| *output = input.mul_add(-0.37, *output));
    let mut actual = base.clone();
    axpy(&arithmetic(), &mut actual, &input, -0.37);
    assert_close(&expected, &actual, 2e-7);

    let mut expected = base.clone();
    expected
        .iter_mut()
        .zip(&input)
        .for_each(|(output, input)| *output *= input);
    let mut actual = base.clone();
    zip_in_place(&mut actual, &input, &|left: f32, right: f32| left * right);
    assert_close(&expected, &actual, 0.0);

    let mut expected = base.clone();
    expected
        .iter_mut()
        .for_each(|value| *value = value.mul_add(1.27, -0.13));
    let mut actual = base.clone();
    affine_in_place(&arithmetic(), &mut actual, 1.27, -0.13);
    assert_close(&expected, &actual, 2e-7);

    let mut expected = base.clone();
    expected.iter_mut().for_each(|value| *value *= *value);
    let mut actual = base.clone();
    unary_in_place(&mut actual, &|value: f32| value * value);
    assert_close(&expected, &actual, 0.0);
}

#[test]
fn max_pool_rows_match_scalar_for_odd_even_widths_and_nans() {
    for width in [17, 18] {
        let mut current = (0..width)
            .map(|index| (index as f32 - 9.0) * 0.25)
            .collect::<Vec<_>>();
        let mut next = (0..width)
            .map(|index| (7.0 - index as f32) * 0.375)
            .collect::<Vec<_>>();
        current[2] = f32::NAN;
        current[7] = -0.0;
        current[8] = 0.0;
        next[10] = f32::NAN;
        next[width - 1] = f32::NAN;

        for next_row in [None, Some(next.as_slice())] {
            let mut expected = vec![0.0; width];
            for x in 0..width {
                let mut maximum = current[x];
                if x + 1 < width {
                    maximum = maximum.max(current[x + 1]);
                }
                if let Some(next) = next_row {
                    maximum = maximum.max(next[x]);
                    if x + 1 < width {
                        maximum = maximum.max(next[x + 1]);
                    }
                }
                expected[x] = maximum;
            }
            let mut input = current.clone();
            if let Some(next) = next_row {
                input.extend_from_slice(next);
            }
            let mut actual = vec![0.0; input.len()];
            max_pool_2x2_same_upper(&mut actual, &input, width, &f32::max);
            for (expected, actual) in expected.iter().zip(&actual[..width]) {
                if expected.is_nan() {
                    assert!(actual.is_nan());
                } else {
                    assert_eq!(expected.to_bits(), actual.to_bits());
                }
            }
        }
    }
}

#[test]
fn gemm_kernels_match_scalar_with_column_tail() {
    const ROWS: usize = 8;
    let inner = 7;
    let columns = 19;
    let left = (0..ROWS * inner)
        .map(|index| ((index * 17 % 29) as f32 - 14.0) / 11.0)
        .collect::<Vec<_>>();
    let right = (0..inner * columns)
        .map(|index| ((index * 13 % 31) as f32 - 15.0) / 9.0)
        .collect::<Vec<_>>();
    let column_bias = (0..columns)
        .map(|column| (column as f32 - 8.0) / 7.0)
        .collect::<Vec<_>>();
    let mut expected = vec![0.0; ROWS * columns];
    for row in 0..ROWS {
        for column in 0..columns {
            let mut sum = column_bias[column];
            for index in 0..inner {
                sum = left[row * inner + index].mul_add(right[index * columns + column], sum);
            }
            expected[row * columns + column] = sum;
        }
    }
    let mut actual = vec![0.0; expected.len()];
    gemm_rows(
        &arithmetic(),
        &mut actual,
        &left,
        &right,
        ROWS,
        inner,
        columns,
        columns,
        None,
        Some(&column_bias),
        false,
        none(),
    );
    assert_close(&expected, &actual, 2e-6);
}

#[test]
fn packed_gemm_kernel_matches_scalar_with_column_tail() {
    const ROWS: usize = 12;
    let inner = 5;
    let columns = 17;
    let row_major = (0..ROWS * inner)
        .map(|index| ((index * 11 % 37) as f32 - 18.0) / 12.0)
        .collect::<Vec<_>>();
    let mut packed = Vec::with_capacity(row_major.len());
    for index in 0..inner {
        for row in 0..ROWS {
            packed.push(row_major[row * inner + index]);
        }
    }
    let right = (0..inner * columns)
        .map(|index| ((index * 7 % 23) as f32 - 11.0) / 8.0)
        .collect::<Vec<_>>();
    let bias = (0..ROWS)
        .map(|row| (row as f32 - 5.0) / 9.0)
        .collect::<Vec<_>>();
    let mut expected = vec![0.0; ROWS * columns];
    for row in 0..ROWS {
        for column in 0..columns {
            let mut sum: f32 = bias[row];
            for index in 0..inner {
                sum = row_major[row * inner + index].mul_add(right[index * columns + column], sum);
            }
            expected[row * columns + column] = sum;
        }
    }
    let mut actual = vec![0.0; expected.len()];
    gemm_rows(
        &arithmetic(),
        &mut actual,
        &packed,
        &right,
        ROWS,
        inner,
        columns,
        columns,
        Some(&bias),
        None,
        true,
        none(),
    );
    assert_close(&expected, &actual, 2e-6);
}

#[test]
fn packed_and_row_major_products_agree_for_every_number_of_rows() {
    let (inner, columns, right_stride) = (5, 7, 9);
    for rows in [1, 3, 4, 8, 12] {
        let row_major = (0..rows * inner)
            .map(|index| ((index * 11 % 37) as f32 - 18.0) / 12.0)
            .collect::<Vec<_>>();
        let packed = (0..rows * inner)
            .map(|place| row_major[place % rows * inner + place / rows])
            .collect::<Vec<_>>();
        let right = (0..inner * right_stride)
            .map(|index| ((index * 7 % 23) as f32 - 11.0) / 8.0)
            .collect::<Vec<_>>();
        let bias = vec![0.25; rows];
        let product = |left: &[f32], packed_left: bool| {
            let mut output = vec![0.0; rows * columns];
            gemm_rows(
                &arithmetic(),
                &mut output,
                left,
                &right,
                rows,
                inner,
                columns,
                right_stride,
                Some(&bias),
                None,
                packed_left,
                none(),
            );
            output
        };
        assert_eq!(product(&packed, true), product(&row_major, false));
    }
}

fn check_direct_linear_6x16<const ROWS: usize>(columns: usize) {
    const CANARY: f32 = 12_345.0;
    let inner = 13;
    let output_stride = columns + 3;
    let row_major_input = (0..ROWS * inner)
        .map(|index| ((index * 17 % 31) as f32 - 15.0) / 19.0)
        .collect::<Vec<_>>();
    let mut packed_input = Vec::with_capacity(row_major_input.len());
    for index in 0..inner {
        for row in 0..ROWS {
            packed_input.push(row_major_input[row * inner + index]);
        }
    }
    let row_major_weight = (0..columns * inner)
        .map(|index| ((index * 13 % 37) as f32 - 18.0) / 23.0)
        .collect::<Vec<_>>();
    let mut packed_weight = Vec::with_capacity(row_major_weight.len());
    for index in 0..inner {
        for column in 0..columns {
            packed_weight.push(row_major_weight[column * inner + index]);
        }
    }
    let bias = (0..columns)
        .map(|column| (column as f32 - 9.0) / 29.0)
        .collect::<Vec<_>>();
    let function = silu as Unary;

    for (bias, activation, tolerance) in [
        (None, None, 2e-6),
        (Some(bias.as_slice()), Some(&function), 3e-5),
    ] {
        let mut expected = vec![0.0; ROWS * columns];
        for row in 0..ROWS {
            for column in 0..columns {
                let mut sum = bias.map_or(0.0, |bias| bias[column]);
                for index in 0..inner {
                    sum = row_major_input[row * inner + index]
                        .mul_add(row_major_weight[column * inner + index], sum);
                }
                expected[row * columns + column] =
                    activation.map_or(sum, |activation| activation(sum));
            }
        }

        let mut output = vec![CANARY; ROWS * output_stride + 8];
        linear_6x16_packed::<ROWS, f32, fn(f32, f32, f32) -> f32, Unary>(
            &arithmetic(),
            &mut output,
            output_stride,
            &packed_input,
            &packed_weight,
            inner,
            columns,
            bias,
            activation,
        );
        let actual = (0..ROWS)
            .flat_map(|row| output[row * output_stride..row * output_stride + columns].iter())
            .copied()
            .collect::<Vec<_>>();
        assert_close(&expected, &actual, tolerance);
        for row in 0..ROWS {
            assert!(
                output[row * output_stride + columns..(row + 1) * output_stride]
                    .iter()
                    .all(|&value| value == CANARY),
                "row {row}, columns {columns}: output tail was overwritten"
            );
        }
        assert!(output[ROWS * output_stride..]
            .iter()
            .all(|&value| value == CANARY));
    }
}

#[test]
fn direct_linear_6x16_matches_all_row_and_column_tails() {
    for columns in [1, 6, 7, 8, 9, 10, 15, 16] {
        check_direct_linear_6x16::<1>(columns);
        check_direct_linear_6x16::<2>(columns);
        check_direct_linear_6x16::<3>(columns);
        check_direct_linear_6x16::<4>(columns);
        check_direct_linear_6x16::<5>(columns);
        check_direct_linear_6x16::<6>(columns);
    }
}

#[test]
fn sparse_gemm_kernel_handles_16_8_and_scalar_column_blocks() {
    const ROWS: usize = 4;
    let inner = 7;
    let columns = 25;
    let indices = [0, 2, 6];
    let weights: [f32; 12] = [
        1.0, -0.5, 0.25, 2.0, 0.75, 1.5, -1.0, 0.5, -2.0, 0.125, 0.375, 1.25,
    ];
    let right = (0..inner * columns)
        .map(|index| ((index * 13 % 37) as f32 - 18.0) / 11.0)
        .collect::<Vec<_>>();
    let bias = [0.5, -0.25, 1.0, -1.0];
    let mut expected = vec![0.0; ROWS * columns];
    for row in 0..ROWS {
        for column in 0..columns {
            let mut sum: f32 = bias[row];
            for (entry, &index) in indices.iter().enumerate() {
                sum = weights[entry * ROWS + row]
                    .mul_add(right[index as usize * columns + column], sum);
            }
            expected[row * columns + column] = sum.max(0.0);
        }
    }
    let mut actual = vec![0.0; expected.len()];
    gemm_4x16_sparse(
        &arithmetic(),
        &mut actual,
        &right,
        &indices,
        &weights,
        columns,
        columns,
        Some(&bias),
        Some(&(relu as Unary)),
    );
    assert_close(&expected, &actual, 2e-6);
}

#[test]
fn packed_4x16_gemm_accumulates_depth_blocks_before_activation() {
    const ROWS: usize = 4;
    let inner = 37;
    let split = 19;
    let columns = 25;
    let left = (0..inner * ROWS)
        .map(|index| ((index * 17 % 41) as f32 - 20.0) / 13.0)
        .collect::<Vec<_>>();
    let right = (0..inner * columns)
        .map(|index| ((index * 11 % 43) as f32 - 21.0) / 15.0)
        .collect::<Vec<_>>();
    let bias = [0.5, -0.25, 1.0, -1.0];
    let mut expected = vec![0.0; ROWS * columns];
    for row in 0..ROWS {
        for column in 0..columns {
            let mut sum = bias[row];
            for index in 0..inner {
                sum = left[index * ROWS + row].mul_add(right[index * columns + column], sum);
            }
            expected[row * columns + column] = sum / (1.0 + (-sum).exp());
        }
    }
    let mut actual = vec![0.0; expected.len()];
    gemm_4x16_packed(
        &arithmetic(),
        &mut actual,
        &left[..split * ROWS],
        &right,
        split,
        columns,
        columns,
        columns,
        Some(&bias),
        false,
        none(),
    );
    gemm_4x16_packed(
        &arithmetic(),
        &mut actual,
        &left[split * ROWS..],
        &right[split * columns..],
        inner - split,
        columns,
        columns,
        columns,
        Some(&bias),
        true,
        Some(&(silu as Unary)),
    );
    assert_close(&expected, &actual, 1e-5);
}

#[test]
fn sgemm_matches_row_major_matrix_product() {
    let left = [1.0, 2.0, 3.0, -1.0, 0.5, 4.0];
    let right = [2.0, -1.0, 0.0, 3.0, 1.0, 2.0];
    let mut output = [0.0; 4];
    gemm_with_activation(&arithmetic(), &mut output, &left, &right, 2, 3, 2, None, none());
    assert_eq!(output, [5.0, 11.0, 2.0, 10.5]);
}

#[test]
fn sgemm_accepts_a_transposed_right_matrix() {
    let left = [1.0, 2.0, 3.0, -1.0, 0.5, 4.0];
    let right = [2.0, 0.0, 1.0, -1.0, 3.0, 2.0];
    let mut output = [0.0; 4];
    let packed = pack_rows(&right, 2, 8).unwrap();
    linear_right_transposed(&arithmetic(), &mut output, &left, &packed, 2, 3, 2, 8, None, none());
    assert_eq!(output, [5.0, 11.0, 2.0, 10.5]);
}

#[test]
fn gemm_tiles_agree_with_the_whole_product() {
    let left = (0..6 * 5)
        .map(|index| (index * 7 % 11) as f32 - 5.0)
        .collect::<Vec<_>>();
    let right = (0..5 * 16)
        .map(|index| (index * 3 % 13) as f32 - 6.0)
        .collect::<Vec<_>>();
    let mut whole = vec![0.0; 6 * 16];
    gemm_with_activation(&arithmetic(), &mut whole, &left, &right, 6, 5, 16, None, none());
    let packed = interleave(&left, 6, 5, 6);
    let mut tile = vec![0.0; 6 * 16];
    gemm_6x16_packed(
        &arithmetic(),
        &mut tile,
        &packed,
        &right,
        5,
        16,
        16,
        16,
        None,
        false,
        none(),
    );
    assert_eq!(tile, whole);
}

#[test]
fn sixteen_rows_by_six_columns_agree_with_the_whole_product() {
    let left = (0..16 * 4)
        .map(|index| (index * 5 % 17) as f32 - 8.0)
        .collect::<Vec<_>>();
    let right = (0..4 * 6)
        .map(|index| (index * 7 % 9) as f32 - 4.0)
        .collect::<Vec<_>>();
    let mut whole = vec![0.0; 16 * 6];
    gemm_with_activation(&arithmetic(), &mut whole, &left, &right, 16, 4, 6, None, none());
    let packed = interleave(&left, 16, 4, 16);
    let mut tile = vec![0.0; 16 * 6];
    gemm_16x6_packed::<6, f32, fn(f32, f32, f32) -> f32, Unary>(
        &arithmetic(),
        &mut tile,
        &packed,
        &right,
        4,
        6,
        None,
        none(),
    );
    assert_eq!(tile, whole);
}

#[test]
fn packing_refuses_what_does_not_divide() {
    assert!(matches!(pack_rows(&[1.0f32], 0, 4), Err(PackError::ZeroRows)));
    assert!(matches!(pack_rows(&[1.0f32], 1, 0), Err(PackError::ZeroBlock)));
    assert!(matches!(pack_rows(&[1.0f32; 5], 2, 4), Err(PackError::Uneven)));
    assert_eq!(
        pack_rows(&[1, 2, 3, 4, 5, 6], 3, 2).unwrap(),
        [1, 3, 2, 4, 5, 6]
    );
}

#[test]
fn block_sizes_follow_the_working_set() {
    assert!(depth_block(64) > 0);
    assert!(cached_column_block(8, 1_000) == 24 || cached_column_block(8, 1_000) == 96);
}

#[test]
fn gathered_windows_hold_zeros_over_the_padding() {
    let window = Window {
        channels: 1,
        input_height: 2,
        input_width: 2,
        kernel_height: 3,
        kernel_width: 3,
        stride_y: 1,
        stride_x: 1,
        pad_y: 1,
        pad_x: 1,
    };
    let columns = im2col(0.0, &[1.0, 2.0, 3.0, 4.0], 0, &window, 2, 2);
    assert_eq!(columns.len(), 36);
    assert_eq!(&columns[0..4], &[0.0, 0.0, 0.0, 1.0]);
    assert_eq!(&columns[16..20], &[1.0, 2.0, 3.0, 4.0]);
    let mut panel = vec![0.0; 9 * 16];
    pack_spatial_panel(0.0, &mut panel, &[1.0, 2.0, 3.0, 4.0], &window, 0, 0, 2);
    assert_eq!(&panel[4 * 16..4 * 16 + 2], &[1.0, 2.0]);
}

#[test]
fn panels_agree_with_the_whole_product() {
    let rows = 8;
    let inner = 3;
    let left = (0..rows * inner)
        .map(|index| (index * 5 % 7) as f32 - 3.0)
        .collect::<Vec<_>>();
    let right = (0..inner * 16)
        .map(|index| (index * 3 % 5) as f32 - 2.0)
        .collect::<Vec<_>>();
    let mut whole = vec![0.0; rows * 16];
    gemm_with_activation(&arithmetic(), &mut whole, &left, &right, rows, inner, 16, None, none());
    let mut panels = vec![0.0; rows * 16];
    gemm_packed_panels(
        &arithmetic(),
        &mut panels,
        &interleave(&left, rows, inner, 4),
        &right,
        rows,
        inner,
        1,
        None,
        none(),
    );
    assert_eq!(panels, whole);
    let mut sparse = vec![0.0; 4 * 16];
    let mut dense = vec![0.0; 4 * 16];
    gemm_sparse_packed_panels(
        &arithmetic(),
        &mut sparse,
        &right,
        4,
        inner,
        1,
        None,
        &[0, 1],
        &[2],
        &[1.0, 2.0, 3.0, 4.0],
        none(),
    );
    gemm_sparse_packed_left(
        &arithmetic(),
        &mut dense,
        &right,
        4,
        inner,
        16,
        None,
        &[0, 1],
        &[2],
        &[1.0, 2.0, 3.0, 4.0],
        none(),
    );
    assert_eq!(sparse, dense);
}

#[test]
fn fill_writes_every_element() {
    let mut values = vec![1; 5];
    fill(&mut values, 7);
    assert_eq!(values, [7; 5]);
}
