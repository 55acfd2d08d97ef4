use ppocr::broadcast::{binary, broadcast_shape, unary};
use ppocr::layout::{conv_output_size, normalize_axis, shape, transpose};
use ppocr::matmul::matmul;
use ppocr::accumulate::Arithmetic;
use ppocr::pooling::{resize, scale_nearest};
use ppocr::reduction::{bias_softmax, global_average_pool, reduce_mean, softmax};
use ppocr::reshape::{reshape, squeeze, unsqueeze};
use ppocr::shape::{strides, IntoShape};
use ppocr::slicing::{chunk, narrow, slice, slice_parts};
use ppocr::tensor::{Tensor, TensorError};

fn tensor(shape: impl IntoShape, values: &[f32]) -> Tensor<f32> {
    Tensor::from_f32(shape, values.to_vec()).unwrap()
}

fn integers(values: &[i64]) -> Tensor<f32> {
    Tensor::from_i64(values.len(), values.to_vec()).unwrap()
}

fn counted(shape: &[usize]) -> Tensor<f32> {
    let count = shape.iter().product::<usize>();
    Tensor::from_f32(shape, (0..count).map(|value| value as f32).collect()).unwrap()
}

fn values(tensor: &Tensor<f32>) -> &[f32] {
    tensor.as_f32().unwrap()
}

fn mean(values: Vec<f32>) -> f32 {
    values.iter().sum::<f32>() / values.len() as f32
}

fn shares(row: Vec<f32>) -> Vec<f32> {
    let sum = row.iter().sum::<f32>();
    row.iter().map(|value| value / sum).collect()
}

#[test]
fn validates_tensor_length() {
    assert!(Tensor::from_f32([2, 3], vec![0.0; 6]).is_ok());
    assert!(Tensor::from_f32([2, 3], vec![0.0; 5]).is_err());
}

#[test]
fn computes_contiguous_strides() {
    assert_eq!(strides(&[2, 3, 4]), [12, 4, 1]);
}

#[test]
fn shape_conversions_cover_model_shapes() {
    assert_eq!(3usize.into_shape(), [3]);
    assert_eq!((2, 3, 4, 5, 6).into_shape(), [2, 3, 4, 5, 6]);
    assert_eq!([7, 8].into_shape(), [7, 8]);
}

#[test]
fn tensor_shape_ops_keep_row_major_order() {
    let input = tensor([1, 2, 3], &[0.0, 1.0, 2.0, 3.0, 4.0, 5.0]);
    let transposed = input.transpose(1, 2).unwrap();
    assert_eq!(transposed.shape(), [1, 3, 2]);
    assert_eq!(
        transposed.as_f32().unwrap(),
        &[0.0, 3.0, 1.0, 4.0, 2.0, 5.0]
    );
    assert_eq!(transposed.reshape((3, 2)).unwrap().shape(), [3, 2]);
    assert!(transposed.reshape((4, 2)).is_err());
}

#[test]
fn tensors_tell_their_parts() {
    let input = counted(&[2, 3, 4, 1]);
    assert_eq!(input.rank(), 4);
    assert_eq!(input.len(), 24);
    assert!(!input.is_empty());
    assert_eq!(input.dims4(), Ok((2, 3, 4, 1)));
    assert_eq!(input.dims3(), Err(TensorError::Rank));
    assert_eq!(input.dim(2), Ok(4));
    assert_eq!(input.dim(4), Err(TensorError::Axis));
    assert!(matches!(input.as_i64(), Err(TensorError::ExpectedI64)));
    assert!(matches!(integers(&[1]).as_f32(), Err(TensorError::ExpectedF32)));
    assert!(matches!(
        Tensor::<f32>::from_f32([usize::MAX, 2], Vec::new()),
        Err(TensorError::ShapeOverflow)
    ));
    assert!(matches!(
        Tensor::from_f32(2usize, vec![0.0]),
        Err(TensorError::LengthMismatch)
    ));
    assert_eq!(integers(&[4, 5]).into_i64(), Ok(vec![4, 5]));
}

#[test]
fn transposing_twice_gives_the_tensor_back() {
    let input = counted(&[2, 3, 4]);
    let there = transpose(&[input.duplicate()], &[2, 0, 1]).unwrap();
    assert_eq!(there.shape(), [4, 2, 3]);
    assert_eq!(values(&there)[..4], [0.0, 4.0, 8.0, 12.0]);
    let back = transpose(&[there], &[1, 2, 0]).unwrap();
    assert_eq!(back.shape(), input.shape());
    assert_eq!(values(&back), values(&input));
    assert_eq!(
        values(&input.transpose(0, 2).unwrap().transpose(0, 2).unwrap()),
        values(&input)
    );
    assert!(matches!(
        transpose(&[input], &[0, 0, 1]),
        Err(TensorError::Permutation)
    ));
}

#[test]
fn chunks_joined_give_the_tensor_back() {
    let input = counted(&[2, 6, 2]);
    let parts = chunk(&input, 3, 1).unwrap();
    assert_eq!(parts.len(), 3);
    assert_eq!(parts[1].shape(), [2, 2, 2]);
    assert_eq!(
        values(&parts[1]),
        &[4.0, 5.0, 6.0, 7.0, 16.0, 17.0, 18.0, 19.0]
    );
    let joined = ppocr::joining::concat(&parts, -2).unwrap();
    assert_eq!(joined.shape(), input.shape());
    assert_eq!(values(&joined), values(&input));
    assert!(matches!(chunk(&input, 4, 1), Err(TensorError::Division)));
    assert!(matches!(
        narrow(&input, 1, 5, 2),
        Err(TensorError::ShapeMismatch)
    ));
    assert!(matches!(
        ppocr::joining::concat(&[counted(&[2, 2]), counted(&[3, 2])], 1),
        Err(TensorError::ShapeMismatch)
    ));
}

#[test]
fn slices_take_steps_in_both_directions() {
    let input = counted(&[2, 5]);
    let part = slice_parts(&input, &[1], &[5], &[1], &[2]).unwrap();
    assert_eq!(part.shape(), [2, 2]);
    assert_eq!(values(&part), &[1.0, 3.0, 6.0, 8.0]);
    let part = slice(&[
        input.duplicate(),
        integers(&[-3]),
        integers(&[i64::MAX]),
        integers(&[-1]),
    ])
    .unwrap();
    assert_eq!(values(&part), &[2.0, 3.0, 4.0, 7.0, 8.0, 9.0]);
    assert!(matches!(
        slice_parts(&input, &[0], &[1], &[0], &[0]),
        Err(TensorError::Step)
    ));
}

#[test]
fn reshaping_infers_one_dimension() {
    let input = counted(&[2, 3, 4]);
    let output = reshape(&[input.duplicate(), integers(&[0, -1])]).unwrap();
    assert_eq!(output.shape(), [2, 12]);
    assert!(matches!(
        reshape(&[input.duplicate(), integers(&[-1, -1])]),
        Err(TensorError::Reshape)
    ));
    assert!(matches!(
        reshape(&[input.duplicate(), integers(&[5, -1])]),
        Err(TensorError::Reshape)
    ));
    let wide = unsqueeze(&[input], &[0, -1]).unwrap();
    assert_eq!(wide.shape(), [1, 2, 3, 4, 1]);
    assert_eq!(squeeze(&[wide.duplicate()], &[]).unwrap().shape(), [2, 3, 4]);
    assert_eq!(
        squeeze(&[wide.duplicate(), integers(&[-1])], &[]).unwrap().shape(),
        [1, 2, 3, 4]
    );
    assert!(matches!(squeeze(&[wide], &[1]), Err(TensorError::Squeeze)));
}

#[test]
fn squeezing_undoes_unsqueezing() {
    for axes in [vec![0], vec![-1, 1], vec![2, 0, -1], vec![3]] {
        let input = counted(&[2, 1, 3]);
        let wide = unsqueeze(&[input.duplicate()], &axes).unwrap();
        assert_eq!(wide.shape().len(), 3 + axes.len());
        let narrow = squeeze(&[wide], &axes).unwrap();
        assert_eq!(narrow.shape(), input.shape());
        assert_eq!(narrow.as_f32().unwrap(), input.as_f32().unwrap());
    }
    assert!(matches!(
        unsqueeze(&[counted(&[2])], &[0, -3]),
        Err(TensorError::DuplicateAxis)
    ));
}

#[test]
fn shapes_are_broadcast_from_the_back() {
    assert_eq!(broadcast_shape(&[2, 1, 3], &[4, 1]), Ok(vec![2, 4, 3]));
    assert_eq!(broadcast_shape(&[2], &[3]), Err(TensorError::Broadcast));
    let plus = |left: f32, right: f32| left + right;
    let output = binary(
        &[tensor([2, 1], &[10.0, 20.0]), tensor(3usize, &[1.0, 2.0, 3.0])],
        &plus,
        &plus,
    )
    .unwrap();
    assert_eq!(output.shape(), [2, 3]);
    assert_eq!(values(&output), &[11.0, 12.0, 13.0, 21.0, 22.0, 23.0]);
    let output = unary(&[counted(&[3])], &|value: f32| -value).unwrap();
    assert_eq!(values(&output), &[0.0, -1.0, -2.0]);
    assert_eq!(
        shape(&[counted(&[2, 3])]).unwrap().as_i64(),
        Ok(&[2i64, 3][..])
    );
}

#[test]
fn rows_are_reduced_and_normalized() {
    let input = tensor([1, 2, 1, 2], &[1.0, 3.0, 4.0, 6.0]);
    let pooled = global_average_pool(&[input.duplicate()], &mean).unwrap();
    assert_eq!(pooled.shape(), [1, 2, 1, 1]);
    assert_eq!(values(&pooled), &[2.0, 5.0]);
    let reduced = reduce_mean(&[input.duplicate()], &[2, -1], false, &mean).unwrap();
    assert_eq!(reduced.shape(), [1, 2]);
    assert_eq!(values(&reduced), &[2.0, 5.0]);
    let output = softmax(&[input.duplicate()], -1, &shares).unwrap();
    assert_eq!(values(&output), &[0.25, 0.75, 0.4, 0.6]);
    let plus = |left: f32, right: f32| left + right;
    let output = bias_softmax(
        &[input, tensor(2usize, &[1.0, -1.0])],
        -1,
        &plus,
        &shares,
    )
    .unwrap();
    assert_eq!(values(&output), &[0.5, 0.5, 0.5, 0.5]);
}

#[test]
fn matrices_are_multiplied_in_batches() {
    let arithmetic = Arithmetic { zero: 0.0, mul_add: f32::mul_add };
    let none: Option<&fn(f32) -> f32> = None;
    let left = counted(&[2, 1, 2]);
    let right = tensor([2, 2], &[1.0, 2.0, 3.0, 4.0]);
    let output = matmul(&arithmetic, &[left, right], none).unwrap();
    assert_eq!(output.shape(), [2, 1, 2]);
    assert_eq!(values(&output), &[3.0, 4.0, 11.0, 16.0]);
}

#[test]
fn images_grow_by_repetition() {
    let input = tensor([1, 1, 1, 2], &[1.0, 2.0]);
    let output = scale_nearest(&input, 2, 4).unwrap();
    assert_eq!(output.shape(), [1, 1, 2, 4]);
    assert_eq!(values(&output), &[1.0, 1.0, 2.0, 2.0, 1.0, 1.0, 2.0, 2.0]);
    let same = scale_nearest(&input, 1, 2).unwrap();
    assert_eq!(values(&same), values(&input));
    let scale = |size: usize, factor: f32| (size as f32 * factor).floor() as usize;
    let scales = tensor(4usize, &[1.0, 1.0, 2.0, 2.0]);
    let none = Tensor::from_f32(0usize, Vec::new()).unwrap();
    let resized = resize(&[input, none, scales], &scale).unwrap();
    assert_eq!(values(&resized), values(&output));
}

#[test]
fn planes_without_cells_are_scaled_where_there_are_none() {
    let empty = |shape: [usize; 4]| Tensor::<f32>::from_f32(shape, Vec::new()).unwrap();
    let scaled = scale_nearest(&empty([0, 3, 0, 5]), 2, 2).unwrap();
    assert_eq!(scaled.shape(), [0, 3, 2, 2]);
    assert!(values(&scaled).is_empty());
    let none = Tensor::from_f32(0usize, Vec::new()).unwrap();
    let sizes = integers(&[0, 3, 2, 2]);
    let scale = |size: usize, factor: f32| (size as f32 * factor) as usize;
    let resized = resize(&[empty([2, 0, 4, 0]), none, sizes], &scale).unwrap();
    assert_eq!(resized.shape(), [2, 0, 2, 2]);
    assert!(matches!(
        scale_nearest(&empty([1, 3, 0, 5]), 2, 2),
        Err(TensorError::EmptyOutput)
    ));
    assert!(matches!(
        scale_nearest(&empty([0, 3, 0, 5]), 0, 2),
        Err(TensorError::EmptyOutput)
    ));
}

#[test]
fn narrow_ranges_must_have_a_place_in_a_request() {
    let side = i64::MAX as usize + 9;
    let input = Tensor::<f32>::from_f32([0, side], Vec::new()).unwrap();
    assert!(matches!(
        narrow(&input, 1, side - 1, 1),
        Err(TensorError::DimensionRange)
    ));
    assert_eq!(narrow(&input, 1, 3, 4).unwrap().shape(), [0, 4]);
}

#[test]
fn axes_count_from_both_ends() {
    assert_eq!(normalize_axis(-1, 3), Ok(2));
    assert_eq!(normalize_axis(3, 3), Err(TensorError::Axis));
    assert_eq!(normalize_axis(-4, 3), Err(TensorError::Axis));
    assert_eq!(conv_output_size(7, 3, 2, 1, 1, false), Ok(4));
    assert_eq!(conv_output_size(6, 3, 2, 0, 0, true), Ok(3));
    assert_eq!(
        conv_output_size(2, 5, 1, 1, 1, false),
        Err(TensorError::KernelTooLarge)
    );
}
