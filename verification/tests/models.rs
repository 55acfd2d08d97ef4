use ppocr::benchmark::{
    check_samples, deterministic_device_input, deterministic_input, input_length,
    nearest_percentile, percentile, read_all_f32, read_f32, report_reference, resolve_models,
    sort_samples, summarize_output, timing_percentiles, validate_output, write_f32, BenchmarkArgs,
    BenchmarkError, BenchmarkKind, DictionarySource, ModelAccess, ModelKind, ModelStoreArgs,
};
use ppocr::models::{
    detector_stages_for_channels, recognizer_stages, small_recognizer_stages,
    tiny_recognizer_stages, validate_input, CpuOptions, ModelInputError, ModelSize,
};
use ppocr::single::{are_finite, argmax, Single};
use ppocr::tensor::Tensor;
use ppocr::weights::{load_entries, ArchiveEntry, Weights, WeightsError};
use safetensors::tensor::{Dtype, TensorView};

fn single(value: f32) -> Single {
    Single { bits: value.to_bits() }
}

fn singles(values: &[f32]) -> Vec<Single> {
    values.iter().map(|&value| single(value)).collect()
}

fn input(height: usize, width: usize) -> Tensor<f32> {
    Tensor::new_f32(vec![1, 3, height, width], vec![0.0; 3 * height * width])
}

#[test]
fn validates_model_input_boundaries() {
    assert!(validate_input(&input(32, 32), true).is_ok());
    assert!(validate_input(&input(32, 31), true).is_err());
    assert!(validate_input(&input(48, 5), false).is_ok());
    assert!(validate_input(&input(48, 4), false).is_err());
}

#[test]
fn model_inputs_tell_every_refusal() {
    let refused = |shape: [usize; 4], detector| {
        let count = shape.iter().product::<usize>();
        validate_input(&Tensor::from_f32(shape, vec![0.0; count]).unwrap(), detector).unwrap_err()
    };
    assert_eq!(refused([0, 3, 32, 32], true), ModelInputError::Batch);
    assert_eq!(refused([1, 1, 32, 32], true), ModelInputError::Channels);
    assert_eq!(refused([1, 3, 0, 32], true), ModelInputError::Plane);
    assert_eq!(refused([1, 3, 32, 33], true), ModelInputError::Multiple);
    assert_eq!(refused([1, 3, 47, 32], false), ModelInputError::Height);
    assert_eq!(refused([1, 3, 48, 4], false), ModelInputError::Width);
    let flat = Tensor::from_f32(3usize, vec![0.0; 3]).unwrap();
    assert!(matches!(
        validate_input(&flat, true),
        Err(ModelInputError::Tensor(_))
    ));
}

#[test]
fn sizes_have_names_and_classes() {
    for (size, name, classes) in [
        (ModelSize::Medium, "medium", 18_710),
        (ModelSize::Small, "small", 18_710),
        (ModelSize::Tiny, "tiny", 6_906),
    ] {
        assert_eq!(size.as_str(), name);
        assert_eq!(size.recognizer_classes(), classes);
        assert_eq!(ModelSize::parse(name), Some(size));
    }
    assert_eq!(ModelSize::parse("Tiny"), None);
    assert_eq!(CpuOptions::for_machine(None).threads, 1);
    assert!(CpuOptions::for_machine(Some(6)).is_valid());
    assert!(!CpuOptions { threads: 0 }.is_valid());
}

#[test]
fn blocks_of_a_stage_fit_together() {
    for stages in [
        recognizer_stages(),
        small_recognizer_stages(),
        tiny_recognizer_stages(),
        detector_stages_for_channels([48, 96, 192, 384]),
    ] {
        let blocks = stages.iter().flatten().collect::<Vec<_>>();
        for pair in blocks.windows(2) {
            assert_eq!(pair[0].out_channels, pair[1].in_channels);
        }
        for block in blocks {
            assert_eq!(
                block.is_residual(),
                block.stride == [1, 1] && block.in_channels == block.out_channels
            );
            assert_eq!(block.padding(), block.kernel / 2);
        }
    }
}

fn archive() -> Vec<u8> {
    let first = [1.0f32, 2.0, 3.0, 4.0, 5.0, 6.0]
        .iter()
        .flat_map(|value| value.to_le_bytes())
        .collect::<Vec<_>>();
    let second = [-0.5f32, 7.25]
        .iter()
        .flat_map(|value| value.to_le_bytes())
        .collect::<Vec<_>>();
    let views = vec![
        (
            "head.linear.weight".to_owned(),
            TensorView::new(Dtype::F32, vec![2, 3], &first).unwrap(),
        ),
        (
            "bias".to_owned(),
            TensorView::new(Dtype::F32, vec![2], &second).unwrap(),
        ),
    ];
    safetensors::serialize(views, None).unwrap()
}

#[test]
fn weights_are_found_under_their_dotted_names() {
    let weights = Weights::load(&archive()).unwrap();
    let builder = weights.builder();
    let tensor = builder.pp("head").pp("linear").get([2, 3], "weight").unwrap();
    assert_eq!(tensor.shape(), [2, 3]);
    assert_eq!(
        tensor.as_f32().unwrap(),
        singles(&[1.0, 2.0, 3.0, 4.0, 5.0, 6.0])
    );
    let bias = builder.get(2usize, "bias").unwrap();
    assert_eq!(bias.as_f32().unwrap(), singles(&[-0.5, 7.25]));
    assert!(matches!(
        builder.get(3usize, "bias"),
        Err(WeightsError::Shape)
    ));
    assert!(matches!(
        builder.pp("head").get(2usize, "bias"),
        Err(WeightsError::Missing)
    ));
}

#[test]
fn damaged_archives_are_refused() {
    let mut bytes = archive();
    bytes.pop();
    assert!(matches!(Weights::load(&bytes), Err(WeightsError::Decode)));
    assert!(matches!(Weights::load(&[]), Err(WeightsError::Decode)));
    let data = [0u8; 8];
    let view = TensorView::new(Dtype::F64, vec![1], &data).unwrap();
    let bytes = safetensors::serialize(vec![("a".to_owned(), view)], None).unwrap();
    assert!(matches!(Weights::load(&bytes), Err(WeightsError::Dtype)));
}

fn with_header(header: &str) -> Vec<u8> {
    let mut bytes = (header.len() as u64).to_le_bytes().to_vec();
    bytes.extend_from_slice(header.as_bytes());
    bytes
}

#[test]
fn archives_of_uncounted_length_are_refused() {
    let part = usize::MAX / 16 + 1;
    let mut header = String::from("{");
    let mut start = 0;
    for index in 1..=16 {
        let end = if index < 16 { index * part } else { usize::MAX - 3 };
        let count = (end - start) / 4;
        header.push_str(&format!(
            "\"t{index}\":{{\"dtype\":\"F32\",\"shape\":[1,{count}],\"data_offsets\":[{start},{end}]}},"
        ));
        start = end;
    }
    header.pop();
    header.push('}');
    assert!(matches!(
        Weights::load(&with_header(&header)),
        Err(WeightsError::LengthOverflow)
    ));
}

#[test]
fn long_numbers_of_a_header_are_read() {
    let side = usize::MAX / 2 + 1;
    let header =
        format!("{{\"a\":{{\"dtype\":\"F32\",\"shape\":[0,{side}],\"data_offsets\":[0,0]}}}}");
    let weights = Weights::load(&with_header(&header)).unwrap();
    let tensor = weights.builder().get([0, side], "a").unwrap();
    assert_eq!(tensor.shape(), [0, side]);
    let refused = with_header("{\"a\":99999999999999999999}");
    assert!(matches!(Weights::load(&refused), Err(WeightsError::Decode)));
}

#[test]
fn entries_must_hold_what_their_shape_says() {
    let entry = |shape: Vec<usize>, length: usize| {
        vec![ArchiveEntry {
            name: "a".to_owned(),
            single: true,
            shape,
            data: vec![0; length],
        }]
    };
    assert!(load_entries(&entry(vec![2], 8)).is_ok());
    assert!(matches!(
        load_entries(&entry(vec![2], 7)),
        Err(WeightsError::ByteLength)
    ));
    assert!(matches!(
        load_entries(&entry(vec![usize::MAX, 2], 8)),
        Err(WeightsError::ShapeOverflow)
    ));
    assert!(matches!(
        load_entries(&entry(vec![usize::MAX / 2], 8)),
        Err(WeightsError::ByteOverflow)
    ));
}

#[test]
fn benchmark_kinds_have_their_dimensions() {
    assert_eq!(BenchmarkKind::Detector.as_str(), "det");
    assert_eq!(BenchmarkKind::Recognizer.as_str(), "rec");
    assert_eq!(BenchmarkKind::Recognizer.model_kind(), ModelKind::Recognizer);
    let args = |kind, height, width, runs| BenchmarkArgs {
        kind,
        height,
        width,
        warmup: 1,
        runs,
    };
    let detector = BenchmarkKind::Detector;
    let recognizer = BenchmarkKind::Recognizer;
    let (height, width) = detector.default_dimensions();
    assert_eq!(
        args(detector, None, None, 1).input_shape(),
        Ok([1, 3, height, width])
    );
    assert_eq!(
        args(recognizer, None, Some(100), 1).input_shape(),
        Ok([1, 3, recognizer.default_dimensions().0, 100])
    );
    assert_eq!(
        args(detector, None, None, 0).input_shape(),
        Err(BenchmarkError::Runs)
    );
    assert_eq!(
        args(recognizer, Some(0), None, 1).input_shape(),
        Err(BenchmarkError::Height)
    );
    assert_eq!(
        args(recognizer, None, Some(0), 1).input_shape(),
        Err(BenchmarkError::Width)
    );
    assert_eq!(
        input_length([1, 3, usize::MAX, 2]),
        Err(BenchmarkError::InputOverflow)
    );
    assert_eq!(input_length([1, 3, 4, 5]), Ok(60));
}

#[test]
fn store_arguments_choose_the_access() {
    let args = |offline, verify_models| ModelStoreArgs {
        model_dir: "models".to_owned(),
        offline,
        verify_models,
    };
    assert_eq!(args(false, false).access(), ModelAccess::Online);
    assert_eq!(args(true, false).access(), ModelAccess::Offline);
    assert_eq!(args(false, true).access(), ModelAccess::Verify);
}

#[test]
fn values_written_are_read_back() {
    let values = singles(&[0.0, -1.5, f32::MAX, f32::NAN]);
    let bytes = write_f32(&values);
    assert_eq!(bytes[4..8], (-1.5f32).to_le_bytes());
    assert_eq!(read_f32(&bytes, 4), Ok(values.clone()));
    assert_eq!(read_all_f32(&bytes), Ok(values));
    assert_eq!(read_f32(&bytes, 3), Err(BenchmarkError::FileLength(16)));
    assert_eq!(
        read_all_f32(&bytes[..15]),
        Err(BenchmarkError::FileLength(15))
    );
}

#[test]
fn generated_inputs_do_not_vary() {
    let mut state = 0x243f_6a88u32;
    let expected = (0..64)
        .map(|_| {
            state = state.wrapping_mul(1_664_525).wrapping_add(1_013_904_223);
            state >> 8
        })
        .collect::<Vec<_>>();
    assert_eq!(deterministic_input(64), expected);
    assert_eq!(deterministic_device_input(3), [-493, -420, -347]);
}

#[test]
fn references_are_held_against_outputs() {
    let detector = BenchmarkKind::Detector;
    let recognizer = BenchmarkKind::Recognizer;
    let shape = [1, 2, 3];
    let actual = singles(&[0.1, 0.7, 0.2, 0.5, 0.2, 0.3]);
    let expected = singles(&[0.2, 0.6, 0.2, 0.1, 0.2, 0.7]);
    assert_eq!(report_reference(recognizer, &shape, &actual, &actual), Ok(0));
    assert_eq!(report_reference(recognizer, &shape, &actual, &expected), Ok(1));
    assert_eq!(
        report_reference(detector, &shape, &actual, &expected[1..]),
        Err(BenchmarkError::ReferenceLength { reference: 5, output: 6 })
    );
    assert_eq!(
        report_reference(recognizer, &[], &actual, &expected),
        Err(BenchmarkError::NoClassAxis)
    );
    assert_eq!(
        report_reference(recognizer, &[1, 0], &actual, &expected),
        Err(BenchmarkError::EmptyClassAxis)
    );
    assert_eq!(
        report_reference(recognizer, &[1, 4], &actual, &expected),
        Err(BenchmarkError::UnevenClasses { values: 6, classes: 4 })
    );
    let broken = singles(&[f32::INFINITY; 6]);
    assert_eq!(
        report_reference(detector, &shape, &actual, &broken),
        Err(BenchmarkError::NonFiniteReference)
    );
    assert_eq!(validate_output(&broken), Err(BenchmarkError::NonFiniteOutput));
    assert_eq!(validate_output(&[]), Err(BenchmarkError::EmptyOutput));
    assert_eq!(validate_output(&actual), Ok(()));
    assert!(!are_finite(&broken));
    assert_eq!(argmax(&actual, 3, 3), 0);
    assert_eq!(argmax(&singles(&[1.0, 1.0]), 0, 2), 1);
}

#[test]
fn percentiles_take_the_nearest_sample() {
    let sorted = (0..10).collect::<Vec<u32>>();
    for percentage in [0, 5, 50, 90, 95, 99, 100] {
        let place = (9.0 * percentage as f64 / 100.0).round() as u32;
        assert_eq!(nearest_percentile(&sorted, percentage), place);
    }
    assert_eq!(percentile(&sorted, 50), 4);
    assert_eq!(percentile(&sorted, 95), 8);
    assert_eq!(check_samples(3, 3), Ok(()));
    assert_eq!(
        check_samples(2, 3),
        Err(BenchmarkError::Samples { samples: 2, runs: 3 })
    );
}

#[test]
fn timings_are_sorted_first() {
    let samples = [50, 10, 40, 30, 20];
    assert_eq!(sort_samples(&samples), [10, 20, 30, 40, 50]);
    assert_eq!(timing_percentiles(&samples), Ok([30, 50, 50]));
    assert_eq!(timing_percentiles(&[]), Err(BenchmarkError::NoSamples));
}

#[test]
fn outputs_are_summed_up() {
    let sum = |values: Vec<Single>| {
        values.iter().map(|value| f32::from_bits(value.bits)).sum::<f32>()
    };
    let summary = summarize_output(&singles(&[1.0, -2.0, 0.5]), &sum).ok().unwrap();
    assert_eq!(summary.minimum, single(-2.0));
    assert_eq!(summary.maximum, single(1.0));
    assert_eq!(summary.sum, -0.5);
    assert!(matches!(
        summarize_output(&[], &sum),
        Err(BenchmarkError::EmptyOutput)
    ));
}

#[test]
fn benchmark_inputs_are_read_or_generated() {
    let args = BenchmarkArgs {
        kind: BenchmarkKind::Detector,
        height: None,
        width: None,
        warmup: 0,
        runs: 1,
    };
    let value = |number: u32| single(number as f32);
    let found = args.input_values([1, 1, 1, 2], None, &value).unwrap();
    assert_eq!(found, singles(&[12_542_348.0, 8_730_204.0]));
    let bytes = write_f32(&singles(&[1.5, 2.5]));
    let found = args.input_values([1, 1, 1, 2], Some(&bytes), &value).unwrap();
    assert_eq!(found, singles(&[1.5, 2.5]));
    assert_eq!(
        args.input_values([1, 1, 1, 3], Some(&bytes), &value),
        Err(BenchmarkError::FileLength(8))
    );
    assert_eq!(
        args.input_values([1, 2, 1, usize::MAX], None, &value),
        Err(BenchmarkError::InputOverflow)
    );
}

#[test]
fn models_that_are_given_need_no_store() {
    let plan = resolve_models(true, true, true);
    assert!(!plan.pinned_detector && !plan.pinned_recognizer);
    assert_eq!(plan.dictionary, DictionarySource::Given);
    assert_eq!(
        resolve_models(true, true, false).dictionary,
        DictionarySource::Beside
    );
    let plan = resolve_models(true, false, false);
    assert!(!plan.pinned_detector && plan.pinned_recognizer);
    assert_eq!(plan.dictionary, DictionarySource::Pinned);
}
