use ppocr::accumulate::Arithmetic;
use ppocr::conv::ConvOptions;
use ppocr::operations::{Kernels, Operation};
use ppocr::pooling::PoolOptions;
use ppocr::tensor::{Tensor, TensorError};

type Unary = fn(f32) -> f32;
type Binary = fn(f32, f32) -> f32;
type All = Kernels<
    f32,
    fn(f32, f32, f32) -> f32,
    Unary,
    Binary,
    fn(Vec<f32>) -> Vec<f32>,
    fn(Vec<f32>) -> f32,
    fn(Vec<f32>, usize) -> f32,
    fn(usize, f32) -> usize,
    fn(f32, f32, f32) -> f32,
    fn(f32, f32, f32, f32, f32) -> (f32, f32),
>;

fn shares(row: Vec<f32>) -> Vec<f32> {
    let sum = row.iter().sum::<f32>();
    row.iter().map(|value| value / sum).collect()
}

fn mean(values: Vec<f32>) -> f32 {
    values.iter().sum::<f32>() / values.len() as f32
}

fn maximum(values: Vec<f32>, _count: usize) -> f32 {
    values.iter().copied().fold(f32::NEG_INFINITY, f32::max)
}

fn average(values: Vec<f32>, count: usize) -> f32 {
    values.iter().sum::<f32>() / count as f32
}

fn scale(size: usize, factor: f32) -> usize {
    (size as f32 * factor) as usize
}

fn hard_sigmoid(alpha: f32, beta: f32, value: f32) -> f32 {
    value.mul_add(alpha, beta).clamp(0.0, 1.0)
}

fn normalization(epsilon: f32, scale: f32, offset: f32, mean: f32, variance: f32) -> (f32, f32) {
    let factor = scale / (variance + epsilon).sqrt();
    (factor, offset - mean * factor)
}

fn kernels() -> All {
    Kernels {
        arithmetic: Arithmetic { zero: 0.0, mul_add: f32::mul_add as fn(f32, f32, f32) -> f32 },
        erf: (|value| value) as Unary,
        gelu: (|value| value + 100.0) as Unary,
        hard_swish: (|value| value + 1.0) as Unary,
        relu: (|value| value.max(0.0)) as Unary,
        sigmoid: (|value| value + 2.0) as Unary,
        silu: (|value| value + 3.0) as Unary,
        sqrt: f32::sqrt as Unary,
        addition: (|left, right| left + right) as Binary,
        division: (|left, right| left / right) as Binary,
        product: (|left, right| left * right) as Binary,
        power: f32::powf as Binary,
        difference: (|left, right| left - right) as Binary,
        softmax: shares,
        mean,
        maximum,
        average,
        scale,
        hard_sigmoid,
        normalization,
    }
}

fn tensor(shape: &[usize], values: &[f32]) -> Tensor<f32> {
    Tensor::from_f32(shape, values.to_vec()).unwrap()
}

fn integers(values: &[i64]) -> Tensor<f32> {
    Tensor::from_i64(values.len(), values.to_vec()).unwrap()
}

fn run(operation: Operation<f32>, inputs: &[Tensor<f32>]) -> (Vec<usize>, Vec<f32>) {
    let output = kernels().run(&operation, inputs).unwrap();
    (output.shape().to_vec(), output.as_f32().unwrap().to_vec())
}

#[test]
fn functions_of_one_value_are_applied_to_each() {
    let input = || [tensor(&[2], &[4.0, 9.0])];
    assert_eq!(run(Operation::Erf, &input()).1, [4.0, 9.0]);
    assert_eq!(run(Operation::Gelu, &input()).1, [104.0, 109.0]);
    assert_eq!(run(Operation::HardSwish, &input()).1, [5.0, 10.0]);
    assert_eq!(run(Operation::Relu, &[tensor(&[2], &[-1.0, 2.0])]).1, [0.0, 2.0]);
    assert_eq!(run(Operation::Sigmoid, &input()).1, [6.0, 11.0]);
    assert_eq!(run(Operation::Silu, &input()).1, [7.0, 12.0]);
    assert_eq!(run(Operation::Sqrt, &input()).1, [2.0, 3.0]);
    let operation = Operation::HardSigmoid { alpha: 0.1, beta: 0.5 };
    assert_eq!(run(operation, &input()).1, [0.9, 1.0]);
    assert!(matches!(
        kernels().run(&Operation::Relu, &[]),
        Err(TensorError::InputCount)
    ));
    assert!(matches!(
        kernels().run(&Operation::HardSigmoid { alpha: 1.0, beta: 0.0 }, &[integers(&[1])]),
        Err(TensorError::ExpectedF32)
    ));
}

#[test]
fn functions_of_two_values_take_both_inputs() {
    let inputs = || [tensor(&[2], &[8.0, 9.0]), tensor(&[1], &[2.0])];
    assert_eq!(run(Operation::Add, &inputs()).1, [10.0, 11.0]);
    assert_eq!(run(Operation::Div, &inputs()).1, [4.0, 4.5]);
    assert_eq!(run(Operation::Mul, &inputs()).1, [16.0, 18.0]);
    assert_eq!(run(Operation::Pow, &inputs()).1, [64.0, 81.0]);
    assert_eq!(run(Operation::Sub, &inputs()).1, [6.0, 7.0]);
}

fn conv_options() -> ConvOptions {
    ConvOptions { strides: [1, 1], pads: [0; 4], groups: 1, packed_pointwise: false }
}

#[test]
fn planes_are_convolved_and_pooled() {
    let input = || tensor(&[1, 1, 1, 2], &[1.0, 2.0]);
    let weight = || tensor(&[1, 1, 1, 1], &[3.0]);
    assert_eq!(run(Operation::Conv(conv_options()), &[input(), weight()]).1, [3.0, 6.0]);
    assert_eq!(
        run(Operation::ConvGelu(conv_options()), &[input(), weight()]).1,
        [103.0, 106.0]
    );
    assert_eq!(
        run(Operation::ConvTranspose(conv_options()), &[input(), weight()]).1,
        [3.0, 6.0]
    );
    let options = || PoolOptions {
        kernel: [1, 2],
        strides: [1, 2],
        pads: [0; 4],
        ceil_mode: false,
        count_include_pad: false,
    };
    assert_eq!(run(Operation::AveragePool(options()), &[input()]).1, [1.5]);
    assert_eq!(run(Operation::MaxPool(options()), &[input()]).1, [2.0]);
    assert_eq!(run(Operation::GlobalAveragePool, &[input()]).1, [1.5]);
    let channel = |value: f32| tensor(&[1], &[value]);
    let inputs = [input(), channel(4.0), channel(1.0), channel(1.0), channel(3.0)];
    let operation = Operation::BatchNormalization { epsilon: 1.0 };
    assert_eq!(run(operation, &inputs).1, [1.0, 3.0]);
    let scales = tensor(&[4], &[1.0, 1.0, 1.0, 2.0]);
    let none = tensor(&[0], &[]);
    assert_eq!(
        run(Operation::Resize, &[input(), none, scales]).1,
        [1.0, 1.0, 2.0, 2.0]
    );
}

#[test]
fn rows_are_shared_out() {
    let input = || tensor(&[1, 2], &[1.0, 3.0]);
    assert_eq!(run(Operation::Softmax { axis: -1 }, &[input()]).1, [0.25, 0.75]);
    let bias = || tensor(&[2], &[1.0, -1.0]);
    assert_eq!(
        run(Operation::BiasSoftmax { axis: 1 }, &[input(), bias()]).1,
        [0.5, 0.5]
    );
    let square = || tensor(&[2, 2], &[1.0, 0.0, 0.0, 1.0]);
    assert_eq!(run(Operation::MatMul, &[input(), square()]).1, [1.0, 3.0]);
    assert_eq!(
        run(Operation::MatMulBiasSoftmax { axis: -1 }, &[input(), square(), bias()]).1,
        [0.5, 0.5]
    );
    let operation = Operation::ReduceMean { axes: vec![1], keep_dims: true };
    assert_eq!(run(operation, &[input()]), (vec![1, 1], vec![2.0]));
}

#[test]
fn shapes_are_changed() {
    let input = || tensor(&[1, 2], &[1.0, 3.0]);
    assert_eq!(
        run(Operation::Concat { axis: 0 }, &[input(), input()]),
        (vec![2, 2], vec![1.0, 3.0, 1.0, 3.0])
    );
    assert_eq!(run(Operation::Reshape, &[input(), integers(&[-1])]).0, [2]);
    assert_eq!(run(Operation::Squeeze { axes: vec![0] }, &[input()]).0, [2]);
    assert_eq!(run(Operation::Unsqueeze { axes: vec![0] }, &[input()]).0, [1, 1, 2]);
    let operation = Operation::Transpose { permutation: vec![1, 0] };
    assert_eq!(run(operation, &[input()]).0, [2, 1]);
    let slice = [input(), integers(&[1]), integers(&[2]), integers(&[1])];
    assert_eq!(run(Operation::Slice, &slice).1, [3.0]);
    let shape = kernels().run(&Operation::Shape, &[input()]).unwrap();
    assert_eq!(shape.as_i64(), Ok(&[1i64, 2][..]));
}
