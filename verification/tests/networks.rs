use ppocr::accumulate::Arithmetic;
use ppocr::architectures::StemSpec;
use ppocr::conv_plan::Platform;
use ppocr::functions::{upsample, Activation, Functions};
use ppocr::linear::{LayerNorm, Linear};
use ppocr::loading::{pointwise, square, LoadError, Loader};
use ppocr::models::{rec_block, ModelInputError, ModelSize};
use ppocr::network::{Module, RecAttention};
use ppocr::networks::{stack, Backbone, Detector, Neck, Recognizer};
use ppocr::pooling::PoolOptions;
use ppocr::rank_one::FactorError;
use ppocr::single::Single;
use ppocr::tensor::{Tensor, TensorError};
use ppocr::weights::{load_entries, ArchiveEntry, Weights, WeightsError};

type Unary = fn(Single) -> Single;
type Binary = fn(Single, Single) -> Single;
type Ternary = fn(Single, Single, Single) -> Single;
type Rows = fn(Vec<Single>) -> Vec<Single>;
type Normalize = fn(Vec<Single>, Vec<Single>, Vec<Single>, Single) -> Vec<Single>;
type Mean = fn(Vec<Single>) -> Single;
type Window = fn(Vec<Single>, usize) -> Single;
type HeadScale = fn(usize) -> Single;
type Runner = Functions<Ternary, Unary, Binary, Rows, Normalize, Mean, Window, HeadScale>;
type Shift = fn(Single, Single, Single, Single) -> Single;
type Finite = fn(Single) -> bool;
type Factor = fn(Vec<Single>, usize) -> Option<(Vec<Single>, Vec<Single>)>;
type Accept = fn(Vec<Single>, Vec<Single>, Vec<Single>, usize) -> bool;
type WeightLoader = Loader<Binary, Shift, Finite, Factor, Accept>;

fn single(value: f32) -> Single {
    Single { bits: value.to_bits() }
}

fn float(value: Single) -> f32 {
    f32::from_bits(value.bits)
}

fn mul_add(left: Single, right: Single, sum: Single) -> Single {
    single(float(left).mul_add(float(right), float(sum)))
}

fn relu(value: Single) -> Single {
    single(float(value).max(0.0))
}

fn silu(value: Single) -> Single {
    single(float(value) * 2.0)
}

fn gelu(value: Single) -> Single {
    single(float(value) + 1.0)
}

fn hard_sigmoid(value: Single) -> Single {
    single((float(value) / 6.0 + 0.5).clamp(0.0, 1.0))
}

fn hard_sigmoid_five(value: Single) -> Single {
    single((float(value) / 5.0 + 0.5).clamp(0.0, 1.0))
}

fn hard_swish(value: Single) -> Single {
    single(float(value) - 1.0)
}

fn sigmoid(value: Single) -> Single {
    single(1.0 / (1.0 + (-float(value)).exp()))
}

fn addition(left: Single, right: Single) -> Single {
    single(float(left) + float(right))
}

fn product(left: Single, right: Single) -> Single {
    single(float(left) * float(right))
}

fn shares(row: Vec<Single>) -> Vec<Single> {
    let sum = row.iter().map(|&value| float(value).exp()).sum::<f32>();
    row.iter().map(|&value| single(float(value).exp() / sum)).collect()
}

fn normalize(row: Vec<Single>, scale: Vec<Single>, offset: Vec<Single>, _: Single) -> Vec<Single> {
    row.iter()
        .zip(scale.iter().zip(&offset))
        .map(|(&value, (&scale, &offset))| mul_add(value, scale, offset))
        .collect()
}

fn mean(values: Vec<Single>) -> Single {
    let sum = values.iter().map(|&value| float(value)).sum::<f32>();
    single(sum / values.len() as f32)
}

fn maximum(values: Vec<Single>, _count: usize) -> Single {
    single(values.iter().map(|&value| float(value)).fold(f32::NEG_INFINITY, f32::max))
}

fn average(values: Vec<Single>, count: usize) -> Single {
    single(values.iter().map(|&value| float(value)).sum::<f32>() / count as f32)
}

fn head_scale(size: usize) -> Single {
    single((size as f32).powf(-0.5))
}

fn runner() -> Runner {
    Functions {
        arithmetic: Arithmetic { zero: single(0.0), mul_add: mul_add as Ternary },
        one: single(1.0),
        relu: relu as Unary,
        silu: silu as Unary,
        gelu: gelu as Unary,
        hard_sigmoid: hard_sigmoid as Unary,
        hard_sigmoid_five: hard_sigmoid_five as Unary,
        hard_swish: hard_swish as Unary,
        sigmoid: sigmoid as Unary,
        addition: addition as Binary,
        product: product as Binary,
        softmax: shares as Rows,
        normalize: normalize as Normalize,
        mean: mean as Mean,
        maximum: maximum as Window,
        average: average as Window,
        head_scale: head_scale as HeadScale,
        single_thread: true,
    }
}

fn channel_factor(gamma: Single, variance: Single) -> Single {
    single(float(gamma) / float(variance).sqrt())
}

fn shift(bias: Single, mean: Single, scale: Single, beta: Single) -> Single {
    single((float(bias) - float(mean)) * float(scale) + float(beta))
}

fn finite(value: Single) -> bool {
    float(value).is_finite()
}

fn factor(kernels: Vec<Single>, cells: usize) -> Option<(Vec<Single>, Vec<Single>)> {
    let scales = kernels.chunks(cells).map(|_| single(1.0)).collect();
    Some((kernels[..cells].to_vec(), scales))
}

fn accept(
    source: Vec<Single>,
    depthwise: Vec<Single>,
    pointwise: Vec<Single>,
    cells: usize,
) -> bool {
    assert_eq!(cells, 1);
    let inputs = depthwise.len();
    source
        .iter()
        .enumerate()
        .all(|(place, &value)| value == product(pointwise[place], depthwise[place % inputs]))
}

fn loader() -> WeightLoader {
    Loader {
        zero: single(0.0),
        factor_of: channel_factor as Binary,
        product: product as Binary,
        addition: addition as Binary,
        shift: shift as Shift,
        finite: finite as Finite,
        factor: factor as Factor,
        accept: accept as Accept,
        epsilon: single(1e-6),
        platform: Platform {
            system_dense: false,
            wide_kernels: true,
            direct_spatial: true,
            pair_fusion: true,
        },
    }
}

fn tensor(shape: &[usize], values: &[f32]) -> Tensor<Single> {
    Tensor::from_f32(shape, values.iter().map(|&value| single(value)).collect()).unwrap()
}

fn values(tensor: &Tensor<Single>) -> Vec<f32> {
    tensor.as_f32().unwrap().iter().map(|&value| float(value)).collect()
}

fn archive(entries: &[(&str, &[usize], &[f32])]) -> Weights {
    let entries = entries
        .iter()
        .map(|(name, shape, values)| ArchiveEntry {
            name: (*name).to_owned(),
            single: true,
            shape: shape.to_vec(),
            data: values.iter().flat_map(|value| value.to_le_bytes()).collect(),
        })
        .collect::<Vec<_>>();
    load_entries(&entries).unwrap()
}

/// A convolution that multiplies one channel.
fn times(factor: f32, activation: Activation) -> Module {
    let weights = archive(&[("weight", &[1, 1, 1, 1], &[factor])]);
    match loader().load_conv(&weights.builder(), &pointwise(1, 1, false), activation) {
        Ok(module) => module,
        Err(error) => panic!("{error:?}"),
    }
}

fn run(module: &Module, shape: &[usize], input: &[f32]) -> (Vec<usize>, Vec<f32>) {
    let output = runner().forward(module, &tensor(shape, input)).unwrap();
    (output.shape().to_vec(), values(&output))
}

#[test]
fn modules_run_behind_and_beside_each_other() {
    let shape = [1, 1, 1, 2];
    let chain = Module::Chain(vec![
        times(2.0, Activation::Gelu),
        times(10.0, Activation::HardSwish),
    ]);
    assert_eq!(run(&chain, &shape, &[1.0, 2.0]).1, [29.0, 49.0]);
    let sum = Module::Sum(Box::new(times(2.0, Activation::Identity)));
    assert_eq!(run(&sum, &shape, &[1.0, 2.0]).1, [3.0, 6.0]);
    let squared = Module::Product(Box::new(times(1.0, Activation::Identity)));
    assert_eq!(run(&squared, &shape, &[3.0, -2.0]).1, [9.0, 4.0]);
    let gate = Module::Gate(Box::new(Module::Mean));
    assert_eq!(run(&gate, &shape, &[1.0, 3.0]).1, [3.0, 9.0]);
    let join = Module::Join(
        Box::new(times(2.0, Activation::Identity)),
        Box::new(times(-3.0, Activation::Relu)),
    );
    let joined = run(&join, &shape, &[1.0, -2.0]);
    assert_eq!(joined, (vec![1, 2, 1, 2], vec![2.0, -4.0, 0.0, 6.0]));
    let empty = Module::Chain(Vec::new());
    assert_eq!(run(&empty, &shape, &[5.0, 6.0]).1, [5.0, 6.0]);
}

#[test]
fn planes_are_pooled_and_read_by_column() {
    let pool = Module::Pool(
        PoolOptions {
            kernel: [1, 2],
            strides: [1, 2],
            pads: [0; 4],
            ceil_mode: false,
            count_include_pad: false,
        },
        false,
    );
    assert_eq!(run(&pool, &[1, 1, 1, 4], &[1.0, 4.0, 3.0, 2.0]).1, [4.0, 3.0]);
    let columns = run(&Module::Columns, &[1, 2, 1, 2], &[1.0, 2.0, 3.0, 4.0]);
    assert_eq!(columns, (vec![1, 2, 2], vec![1.0, 3.0, 2.0, 4.0]));
    let refused = runner().forward(&Module::Columns, &tensor(&[1, 1, 2, 1], &[1.0, 2.0]));
    assert!(matches!(refused, Err(TensorError::Squeeze)));
}

#[test]
fn refusals_are_handed_on() {
    let chain = Module::Chain(vec![times(2.0, Activation::Identity), Module::Columns]);
    let refused = runner().forward(&chain, &tensor(&[2, 2], &[0.0; 4]));
    assert!(refused.is_err());
    let sum = Module::Sum(Box::new(Module::Chain(vec![Module::Mean, Module::Columns])));
    let output = runner().forward(&sum, &tensor(&[1, 1, 1, 2], &[1.0, 2.0]));
    assert!(matches!(output, Ok(ref tensor) if tensor.shape() == [1, 1, 1, 2]));
}

fn linear(output: usize, input: usize, weight: &[f32]) -> Linear<Single> {
    Linear::new(
        tensor(&[output, input], weight),
        Some(tensor(&[output], &vec![0.0; output])),
    )
    .unwrap()
}

#[test]
fn attention_weighs_the_columns() {
    let attention = Module::Attention(RecAttention {
        qkv: linear(3, 1, &[0.0, 1.0, 1.0]),
        projection: linear(1, 1, &[2.0]),
        hidden_size: 1,
        num_heads: 1,
    });
    let (shape, output) = run(&attention, &[1, 3, 1], &[1.0, 2.0, 6.0]);
    assert_eq!(shape, [1, 3, 1]);
    for value in output {
        assert!((value - 6.0).abs() < 1e-5);
    }
    let flat = runner().forward(&attention, &tensor(&[3, 1], &[1.0, 2.0, 3.0]));
    assert!(matches!(flat, Err(TensorError::Rank)));
}

#[test]
fn the_encoder_adds_planes_and_columns() {
    let level = LayerNorm::new(
        tensor(&[1], &[3.0]),
        tensor(&[1], &[1.0]),
        single(1e-6),
    )
    .unwrap();
    let encoder = Module::Encoder(
        Box::new(times(100.0, Activation::Identity)),
        Box::new(times(2.0, Activation::Identity)),
        Box::new(Module::Level(level)),
    );
    let (shape, output) = run(&encoder, &[1, 1, 1, 3], &[1.0, 2.0, 3.0]);
    assert_eq!(shape, [1, 3, 1]);
    assert_eq!(output, [107.0, 213.0, 319.0]);
}

#[test]
fn stages_are_enlarged_and_stacked_from_the_last() {
    let list = vec![
        tensor(&[1, 1, 2, 2], &[1.0, 2.0, 3.0, 4.0]),
        tensor(&[1, 1, 1, 1], &[9.0]),
    ];
    let output = stack(&list).unwrap();
    assert_eq!(output.shape(), [1, 2, 2, 2]);
    assert_eq!(values(&output), [9.0, 9.0, 9.0, 9.0, 1.0, 2.0, 3.0, 4.0]);
    assert_eq!(
        values(&upsample(&list[1], 2).unwrap()),
        [9.0, 9.0, 9.0, 9.0]
    );
}

fn halving() -> Module {
    Module::Pool(
        PoolOptions {
            kernel: [2, 2],
            strides: [2, 2],
            pads: [0; 4],
            ceil_mode: false,
            count_include_pad: false,
        },
        false,
    )
}

fn first_channel() -> Module {
    let weights = archive(&[("weight", &[1, 3, 1, 1], &[1.0, 0.0, 0.0])]);
    match loader().load_conv(
        &weights.builder(),
        &pointwise(3, 1, false),
        Activation::Identity,
    ) {
        Ok(module) => module,
        Err(error) => panic!("{error:?}"),
    }
}

fn backbone() -> Backbone {
    Backbone {
        stem: first_channel(),
        stages: vec![Module::Chain(Vec::new()), halving(), halving(), halving()],
    }
}

fn four(module: fn() -> Module) -> Vec<Module> {
    (0..4).map(|_| module()).collect()
}

fn same() -> Module {
    Module::Chain(Vec::new())
}

fn doubled() -> Module {
    times(2.0, Activation::Identity)
}

#[test]
fn features_go_down_and_up_through_the_necks() {
    let input = tensor(&[1, 3, 32, 32], &[1.0; 3 * 32 * 32]);
    let features = runner().features(&backbone(), &input).unwrap();
    let sides = features.iter().map(|tensor| tensor.shape()[2]).collect::<Vec<_>>();
    assert_eq!(sides, [32, 16, 8, 4]);
    let small = Neck::Fpn { insert: four(same), input: four(doubled) };
    let output = runner().run_neck(&small, &features).unwrap();
    assert_eq!(output.shape(), [1, 4, 32, 32]);
    let plane = 32 * 32;
    let found = values(&output);
    assert_eq!(
        [found[0], found[plane], found[2 * plane], found[3 * plane]],
        [2.0, 4.0, 6.0, 8.0]
    );
    let medium = Neck::Medium {
        adjust: four(same),
        project: four(same),
        pan_head: vec![halving(), halving(), halving()],
        pan_lateral: four(same),
        refine: four(doubled),
    };
    let found = values(&runner().run_neck(&medium, &features).unwrap());
    assert_eq!(
        [found[0], found[plane], found[2 * plane], found[3 * plane]],
        [20.0, 18.0, 14.0, 8.0]
    );
    let detector = Detector { backbone: backbone(), neck: small, head: Module::Mean };
    let output = detector.run(&runner(), &input).unwrap();
    assert_eq!(values(&output), [2.0, 4.0, 6.0, 8.0]);
    let refused = detector.run(&runner(), &tensor(&[1, 3, 32, 33], &[0.0; 3 * 32 * 33]));
    assert!(matches!(refused, Err(ModelInputError::Multiple)));
}

#[test]
fn the_recognizer_pools_the_last_stage() {
    let recognizer = Recognizer {
        backbone: Backbone {
            stem: first_channel(),
            stages: vec![halving(), halving(), halving(), same()],
        },
        head: same(),
    };
    let input = tensor(&[1, 3, 48, 32], &[2.0; 3 * 48 * 32]);
    let output = recognizer.run(&runner(), &input).unwrap();
    assert_eq!(output.shape(), [1, 1, 2, 2]);
    assert_eq!(values(&output), [2.0; 4]);
    let refused = recognizer.run(&runner(), &tensor(&[1, 3, 47, 32], &[0.0; 3 * 47 * 32]));
    assert!(matches!(refused, Err(ModelInputError::Height)));
}

#[test]
fn stored_normalisations_are_folded_in() {
    let weights = archive(&[
        ("a.convolution.weight", &[1, 1, 1, 1], &[3.0]),
        ("a.norm.weight", &[1], &[4.0]),
        ("a.norm.bias", &[1], &[1.0]),
        ("a.norm.running_mean", &[1], &[0.5]),
        ("a.norm.running_var", &[1], &[4.0]),
    ]);
    let builder = weights.builder().pp("a");
    let module = loader()
        .load_conv_bn(&builder, &pointwise(1, 1, false), "norm", Activation::Relu)
        .map_err(|error| format!("{error:?}"))
        .unwrap();
    assert_eq!(run(&module, &[1, 1, 1, 2], &[1.0, -1.0]).1, [6.0, 0.0]);
    let refused = loader().load_conv_bn(&builder, &pointwise(1, 1, true), "norm", Activation::Relu);
    assert!(matches!(refused, Err(LoadError::Weights(WeightsError::Missing))));
    let refused = loader().load_conv_bn(&builder, &pointwise(2, 1, false), "norm", Activation::Relu);
    assert!(matches!(refused, Err(LoadError::Weights(WeightsError::Shape))));
    let refused = loader().load_conv_bn(&builder, &pointwise(1, 1, false), "none", Activation::Relu);
    assert!(matches!(refused, Err(LoadError::Weights(WeightsError::Missing))));
}

#[test]
fn stored_layers_are_made_into_modules() {
    let weights = archive(&[
        ("up.weight", &[1, 1, 2, 2], &[1.0, 2.0, 3.0, 4.0]),
        ("up.bias", &[1], &[0.5]),
        ("line.weight", &[1, 2], &[1.0, -1.0]),
        ("line.bias", &[1], &[3.0]),
        ("level.weight", &[2], &[1.0, 2.0]),
        ("level.bias", &[2], &[0.0, 1.0]),
        ("dense.weight", &[2, 1, 1, 1], &[5.0, 5.0]),
        ("dense.bias", &[2], &[0.0, 1.0]),
    ]);
    let builder = weights.builder();
    let up = loader().load_doubling(&builder.pp("up"), 1, 1, Activation::Identity);
    let output = run(&up.ok().unwrap(), &[1, 1, 1, 1], &[2.0]);
    assert_eq!(output, (vec![1, 1, 2, 2], vec![2.5, 4.5, 6.5, 8.5]));
    let line = loader().load_linear(&builder.pp("line"), 2, 1, Activation::Silu, false);
    assert_eq!(run(&line.ok().unwrap(), &[1, 2], &[5.0, 1.0]).1, [14.0]);
    let level = loader().load_layer_norm(&builder.pp("level"), 2);
    assert_eq!(run(&level.ok().unwrap(), &[1, 2], &[5.0, 1.0]).1, [5.0, 3.0]);
    let dense = loader().load_rank_one(&builder.pp("dense"), 1, 2, 1);
    let output = run(&dense.ok().unwrap(), &[1, 1, 1, 1], &[2.0]);
    assert_eq!(output.1, [10.0, 11.0]);
    let refused = loader().load_rank_one(&builder.pp("dense"), 1, 2, 2);
    assert!(matches!(refused, Err(LoadError::Weights(WeightsError::Shape))));
    let weights = archive(&[
        ("weight", &[2, 1, 1, 1], &[5.0, 6.0]),
        ("bias", &[2], &[0.0, 1.0]),
    ]);
    let refused = loader().load_rank_one(&weights.builder(), 1, 2, 1);
    assert!(matches!(
        refused,
        Err(LoadError::Factor(FactorError::NotSeparable))
    ));
}

fn block_entries(prefix: &str) -> Vec<(String, Vec<usize>, Vec<f32>)> {
    let one: &[f32] = &[1.0];
    let zero: &[f32] = &[0.0];
    let mut entries: Vec<(String, Vec<usize>, Vec<f32>)> = vec![
        (format!("{prefix}token_conv.weight"), vec![1, 1, 3, 3], {
            let mut kernel = vec![0.0; 9];
            kernel[4] = 2.0;
            kernel
        }),
        (format!("{prefix}token_conv.bias"), vec![1], vec![1.0]),
        (format!("{prefix}channel_conv1.convolution.weight"), vec![2, 1, 1, 1], vec![1.0, 10.0]),
        (format!("{prefix}channel_conv2.convolution.weight"), vec![1, 2, 1, 1], vec![1.0, 1.0]),
    ];
    for (name, channels) in [("channel_conv1", 2), ("channel_conv2", 1)] {
        for (part, value) in [("weight", one), ("bias", zero), ("running_mean", zero), ("running_var", one)] {
            entries.push((
                format!("{prefix}{name}.normalization.{part}"),
                vec![channels],
                vec![value[0]; channels],
            ));
        }
    }
    entries
}

#[test]
fn stages_take_any_number_of_blocks() {
    let load = |stored: usize, wanted: usize| {
        let entries = (0..stored)
            .flat_map(|index| block_entries(&format!("blocks.{index}.")))
            .collect::<Vec<_>>();
        let listed = entries
            .iter()
            .map(|(name, shape, values)| (name.as_str(), shape.as_slice(), values.as_slice()))
            .collect::<Vec<_>>();
        let weights = archive(&listed);
        let specs = vec![rec_block(1, 1, [1, 1], false); wanted];
        loader().load_stage(&weights.builder(), &specs)
    };
    let one = |stage: &Module| run(stage, &[1, 1, 1, 1], &[0.0]).1[0];
    let stage = load(12, 12).ok().unwrap();
    let block = load(1, 1).ok().unwrap();
    let mut expected = vec![0.0];
    for _ in 0..12 {
        expected = run(&block, &[1, 1, 1, 1], &expected).1;
    }
    assert_eq!(one(&stage), expected[0]);
    assert!(matches!(
        load(11, 12),
        Err(LoadError::Weights(WeightsError::Missing))
    ));
    let weights = archive(&[]);
    let builder = weights.builder().pp("blocks");
    for (index, name) in [(0, "0"), (9, "9"), (10, "10"), (usize::MAX, usize::MAX.to_string().as_str())] {
        assert_eq!(builder.pp_index(index).prefix, format!("blocks.{name}"));
    }
}

#[test]
fn blocks_are_loaded_by_their_names() {
    let entries = block_entries("");
    let listed = entries
        .iter()
        .map(|(name, shape, values)| (name.as_str(), shape.as_slice(), values.as_slice()))
        .collect::<Vec<_>>();
    let weights = archive(&listed);
    let spec = rec_block(1, 1, [1, 1], false);
    let block = loader().load_block(&weights.builder(), &spec).ok().unwrap();
    assert_eq!(run(&block, &[1, 1, 1, 1], &[3.0]).1, [7.0 + 8.0 + 71.0]);
    let gated = rec_block(1, 1, [1, 1], true);
    assert!(matches!(
        loader().load_block(&weights.builder(), &gated),
        Err(LoadError::Weights(WeightsError::Missing))
    ));
    let halved = rec_block(1, 1, [2, 2], false);
    assert!(loader().load_block(&weights.builder(), &halved).is_err());
    assert!(loader()
        .load_conv(
            &weights.builder().pp("token_conv"),
            &square(1, 1, 3, [1, 1], true, 1),
            Activation::Identity
        )
        .is_ok());
}

#[test]
fn networks_without_weights_are_refused() {
    let weights = archive(&[]);
    for size in [ModelSize::Medium, ModelSize::Small, ModelSize::Tiny] {
        assert!(matches!(
            loader().load_detector(&weights, size),
            Err(LoadError::Weights(WeightsError::Missing))
        ));
        assert!(matches!(
            loader().load_recognizer(&weights, size),
            Err(LoadError::Weights(WeightsError::Missing))
        ));
    }
    let view = safetensors::tensor::TensorView::new(
        safetensors::tensor::Dtype::F32,
        vec![1],
        &[0, 0, 128, 63],
    )
    .unwrap();
    let bytes = safetensors::serialize(vec![("a".to_owned(), view)], None).unwrap();
    assert!(matches!(
        Detector::load(&loader(), &bytes, ModelSize::Tiny),
        Err(LoadError::Weights(WeightsError::Missing))
    ));
    assert!(matches!(
        Recognizer::load(&loader(), &bytes[..4], ModelSize::Tiny),
        Err(LoadError::Weights(WeightsError::Decode))
    ));
    let stem = StemSpec::Small { mid_channels: 1, out_channels: 1 };
    assert!(loader().load_backbone(&weights.builder(), &Vec::new(), stem).is_err());
}
