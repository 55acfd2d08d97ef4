use ppocr::chunks::{split_recognition_crop, SplitError};
use ppocr::components::{
    detector_output_shape, Cell, DetectionError, DetectorPostprocessOptions, Region,
};
use ppocr::detections::{
    extract_components, extract_detections, find_components, order_detections, Detection,
    DetectionKey, Fitted,
};
use ppocr::images::{crop, is_resizable, resize, Image};
use ppocr::preprocess::{
    assert_shape, longest_crop, normalized_bgr, prepare_detector, prepare_fixed_detector,
    prepare_fixed_recognizer, prepare_recognizer, Crop, PreparedInput, PreprocessError, Sides,
    DETECTOR_SHAPE, RECOGNIZER_SHAPE,
};
use ppocr::rectify::{rectify_text_crop, Corner, RectifyError, Spot};
use ppocr::single::Single;

const DETECTOR_SHAPE_AREA: usize = 416 * 736;

fn single(value: f32) -> Single {
    Single { bits: value.to_bits() }
}

fn uniform(width: u32, height: u32, colour: [u8; 3]) -> Image {
    let count = width as usize * height as usize;
    let mut pixels = Vec::with_capacity(count * 3);
    for _ in 0..count {
        pixels.extend_from_slice(&colour);
    }
    Image::from_pixels(width, height, pixels).unwrap()
}

fn detector_value(channel: usize, byte: u8) -> f32 {
    let mean = [0.485, 0.456, 0.406];
    let deviation = [0.229, 0.224, 0.225];
    (f32::from(byte) / 255.0 - mean[channel]) / deviation[channel]
}

fn recognizer_value(_channel: usize, byte: u8) -> f32 {
    (f32::from(byte) / 255.0 - 0.5) / 0.5
}

fn detector_size(image: &Image, limit: u32) -> (u32, u32) {
    let ratio =
        (f64::from(limit) / f64::from(image.width.max(image.height))).min(1.0);
    let height = ((f64::from(image.height) * ratio / 32.0).round() as u32).max(1) * 32;
    let width = ((f64::from(image.width) * ratio / 32.0).round() as u32).max(1) * 32;
    (width, height)
}

fn fixed_detector(image: &Image) -> Result<PreparedInput<f32>, PreprocessError> {
    let (width, height) = detector_size(image, 736);
    assert!(is_resizable(image.width, image.height, width, height));
    prepare_fixed_detector(image, width, height, 0.0, &detector_value)
}

#[test]
fn fixed_detector_shape_and_bgr_normalization_match_the_parent_path() {
    let image = uniform(1920, 1080, [0, 0, 0]);
    let prepared = fixed_detector(&image).expect("prepare detector");
    assert_eq!(prepared.shape(), DETECTOR_SHAPE);
    assert!((prepared.data[0] + 0.485 / 0.229).abs() < 1e-6);
}

#[test]
fn fixed_detector_rejects_an_image_that_does_not_naturally_match_the_shape() {
    let image = uniform(400, 400, [0, 0, 0]);
    assert!(fixed_detector(&image).is_err());
}

#[test]
fn recognizer_uses_half_normalization_and_zero_padding() {
    let image = uniform(1, 1, [127, 127, 127]);
    let prepared = prepare_fixed_recognizer(&image, None, 48, 0.0, &recognizer_value)
        .expect("prepare recognizer");

    assert_eq!(prepared.shape(), RECOGNIZER_SHAPE);
    let expected = (127.0 / 255.0 - 0.5) / 0.5;
    assert!((prepared.data[0] - expected).abs() < 1e-6);
    assert_eq!(prepared.data[48], 0.0);
}

#[test]
fn planes_come_in_the_order_of_blue_green_and_red() {
    let image = uniform(2, 1, [10, 20, 30]);
    let prepared = normalized_bgr(&image, 3, -1i32, &|channel: usize, byte: u8| {
        channel as i32 * 1_000 + i32::from(byte)
    });
    assert_eq!(prepared.data, [30, 30, -1, 1_020, 1_020, -1, 2_010, 2_010, -1]);
    assert_eq!(prepared.shape(), [1, 3, 1, 3]);
    assert_eq!(
        assert_shape(&prepared, [1, 3, 1, 4]),
        Err(PreprocessError::Shape { height: 1, width: 3 })
    );
}

#[test]
fn empty_crops_are_refused() {
    let image = uniform(4, 4, [1, 2, 3]);
    let part = Crop { x: 0, y: 0, width: 0, height: 2 };
    assert!(matches!(
        prepare_recognizer(&image, part, 5, 320, 0.0, &recognizer_value),
        Err(PreprocessError::EmptyCrop)
    ));
    let part = Crop { x: 1, y: 1, width: 2, height: 2 };
    let prepared = prepare_recognizer(&image, part, 48, 64, 0.0, &recognizer_value).unwrap();
    assert_eq!(prepared.shape(), [1, 3, 48, 64]);
    let prepared = prepare_detector(&image, 4, 4, 0u8, &|_channel: usize, byte: u8| byte);
    assert_eq!(prepared.data.len(), 48);
    assert_eq!(prepared.data[0], 3);
}

#[test]
fn crops_are_cut_off_at_the_edges() {
    let pixels = (0..4 * 3 * 3).map(|value| value as u8).collect::<Vec<_>>();
    let image = Image::from_pixels(4, 3, pixels).unwrap();
    let part = crop(&image, 2, 1, 10, 1);
    assert_eq!((part.width, part.height), (2, 1));
    assert_eq!(part.pixels, [18, 19, 20, 21, 22, 23]);
    let outside = crop(&image, 9, 0, 2, 2);
    assert_eq!((outside.width, outside.height), (0, 2));
    assert!(outside.pixels.is_empty());
    assert!(Image::from_pixels(2, 2, vec![0; 11]).is_none());
}

#[test]
fn resizing_averages_neighbours() {
    let image = Image::from_pixels(2, 1, vec![0, 0, 0, 100, 200, 50]).unwrap();
    let smaller = resize(&image, 1, 1);
    assert_eq!(smaller.pixels, [50, 100, 25]);
    assert_eq!(resize(&image, 2, 1).pixels, image.pixels);
    assert!(!is_resizable(2, 1, 0, 1));
    assert!(is_resizable(u32::MAX, 1, 1, 1));
    assert!(is_resizable(1, 1_100_000, 320, 48));
    assert!(!is_resizable(u32::MAX, 1, u32::MAX - 1, 1));
    assert!(is_resizable(u32::MAX, 1, u32::MAX, 1));
    assert!(!is_resizable(1, 1, u32::MAX, u32::MAX));
}

#[test]
fn images_without_pixels_are_cut_and_resized() {
    let empty = Image::from_pixels(5, 0, Vec::new()).unwrap();
    let part = crop(&empty, 2, 0, 9, 4);
    assert_eq!((part.width, part.height), (3, 0));
    assert!(part.pixels.is_empty());
    let part = crop(&empty, u32::MAX, u32::MAX, 1, 1);
    assert_eq!((part.width, part.height), (0, 0));
    assert!(is_resizable(5, 0, 2, 1));
    assert_eq!(resize(&empty, 2, 1).pixels, [0; 6]);
    assert!(!is_resizable(5, 0, 2, 0));
}

#[test]
fn the_first_of_the_widest_boxes_is_taken() {
    let sides = |left, top, right, bottom| Sides { left, top, right, bottom };
    assert_eq!(longest_crop(&[]), None);
    assert_eq!(longest_crop(&[sides(3, 0, 3, 5), sides(0, 4, 9, 4)]), None);
    assert_eq!(
        longest_crop(&[sides(0, 0, 4, 1), sides(1, 2, 7, 3), sides(5, 5, 11, 9)]),
        Some(Crop { x: 1, y: 2, width: 6, height: 1 })
    );
}

#[test]
fn long_recognition_crops_are_split_without_aspect_ratio_squashing() {
    let image = uniform(1_000, 20, [0, 0, 0]);
    let chunks = split_recognition_crop(&image).expect("split recognition crop");

    assert!(chunks.len() > 1);
    assert!(chunks.iter().all(|chunk| chunk.width <= 133));
    assert_eq!(chunks.first().expect("first chunk").width, 133);
    assert_eq!(chunks.last().expect("last chunk").width, 112);
}

#[test]
fn chunks_cover_the_line_and_overlap() {
    let mut pixels = Vec::new();
    for x in 0..300u32 {
        pixels.extend_from_slice(&[(x % 256) as u8, (x / 256) as u8, 0]);
    }
    let image = Image::from_pixels(300, 1, pixels).unwrap();
    let chunks = split_recognition_crop(&image);
    assert!(matches!(chunks, Ok(ref parts) if parts.len() == 60));
    let parts = chunks.unwrap();
    assert_eq!(parts[0].pixels[15..18], parts[1].pixels[0..3]);
    let last = parts.last().unwrap();
    assert_eq!(last.pixels[last.pixels.len() - 3..], [43, 1, 0]);
    assert!(matches!(
        split_recognition_crop(&uniform(400, 1, [0; 3])),
        Err(SplitError::TooManyChunks)
    ));
    assert!(matches!(
        split_recognition_crop(&uniform(0, 1, [0; 3])),
        Err(SplitError::EmptyCrop)
    ));
    assert_eq!(split_recognition_crop(&uniform(5, 1, [7; 3])).unwrap().len(), 1);
}

fn options(min_area: usize) -> DetectorPostprocessOptions {
    DetectorPostprocessOptions {
        min_area,
        unclip_ratio: single(1.0),
        ..Default::default()
    }
}

type Outline = [(f32, f32); 4];

/// How the detector input shows a picture: the size of its content, and the factors
/// back to the picture.
#[derive(Clone, Copy)]
struct Shown {
    content: (usize, usize),
    factors: (f32, f32),
}

/// The picture in the upper left corner, as large as the input of the model allows.
fn letterboxed(image: &Image) -> Shown {
    let ratio = (736.0 / f64::from(image.width)).min(416.0 / f64::from(image.height));
    let side = |size: u32| (f64::from(size) * ratio).round();
    let (width, height) = (side(image.width), side(image.height));
    Shown {
        content: (width as usize, height as usize),
        factors: (
            (f64::from(image.width) / width) as f32,
            (f64::from(image.height) / height) as f32,
        ),
    }
}

fn whole() -> Shown {
    letterboxed(&uniform(736, 416, [0, 0, 0]))
}

fn rotated_box(points: &[(f32, f32)], ratio: f32) -> Outline {
    let count = points.len() as f32;
    let center = (
        points.iter().map(|point| point.0).sum::<f32>() / count,
        points.iter().map(|point| point.1).sum::<f32>() / count,
    );
    let (mut xx, mut xy, mut yy) = (0.0f32, 0.0f32, 0.0f32);
    for point in points {
        let (x, y) = (point.0 - center.0, point.1 - center.1);
        xx += x * x;
        xy += x * y;
        yy += y * y;
    }
    let angle = 0.5 * (2.0 * xy).atan2(xx - yy);
    let mut axis = (angle.cos(), angle.sin());
    if axis.0 < 0.0 || (axis.0.abs() < f32::EPSILON && axis.1 < 0.0) {
        axis = (-axis.0, -axis.1);
    }
    let normal = (-axis.1, axis.0);
    let mut along = (f32::INFINITY, f32::NEG_INFINITY);
    let mut across = (f32::INFINITY, f32::NEG_INFINITY);
    for point in points {
        let (x, y) = (point.0 - center.0, point.1 - center.1);
        let on_axis = x * axis.0 + y * axis.1;
        let on_normal = x * normal.0 + y * normal.1;
        along = (along.0.min(on_axis), along.1.max(on_axis));
        across = (across.0.min(on_normal), across.1.max(on_normal));
    }
    let half_axis = (along.1 - along.0 + 1.0) * ratio * 0.5;
    let half_normal = (across.1 - across.0 + 1.0) * ratio * 0.5;
    let (middle, height) = ((along.0 + along.1) * 0.5, (across.0 + across.1) * 0.5);
    let corner = |x: f32, y: f32| {
        (
            center.0 + axis.0 * (middle + x) + normal.0 * (height + y),
            center.1 + axis.1 * (middle + x) + normal.1 * (height + y),
        )
    };
    [
        corner(-half_axis, -half_normal),
        corner(half_axis, -half_normal),
        corner(half_axis, half_normal),
        corner(-half_axis, half_normal),
    ]
}

fn extract(
    values: &[f32],
    shown: Shown,
    options: DetectorPostprocessOptions,
) -> Vec<Detection<Outline>> {
    let ratio = f32::from_bits(options.unclip_ratio.bits);
    let measure = |cells: Vec<Cell>| {
        let sum = cells
            .iter()
            .map(|cell| f64::from(values[cell.y * 736 + cell.x]))
            .sum::<f64>();
        let points = cells
            .iter()
            .map(|cell| (cell.x as f32 + 0.5, cell.y as f32 + 0.5))
            .collect::<Vec<_>>();
        let polygon = rotated_box(&points, ratio)
            .map(|point| (point.0 * shown.factors.0, point.1 * shown.factors.1));
        let middle = |side: fn(&(f32, f32)) -> f32| polygon.iter().map(side).sum::<f32>() / 4.0;
        Fitted {
            polygon,
            key: DetectionKey {
                center_x: single(middle(|point| point.0)),
                center_y: single(middle(|point| point.1)),
                score: single((sum / cells.len() as f64) as f32),
            },
        }
    };
    let values = values.iter().map(|&value| single(value)).collect::<Vec<_>>();
    extract_detections(
        &values,
        &[1, 1, 416, 736],
        shown.content.0,
        shown.content.1,
        options,
        &measure,
    )
    .expect("postprocess detector")
}

#[test]
fn detector_postprocess_ignores_letterbox_padding() {
    let image = uniform(400, 400, [0, 0, 0]);
    let shown = letterboxed(&image);
    assert_eq!(shown.content, (416, 416));
    let mut values = vec![0.0; DETECTOR_SHAPE_AREA];
    values[20 * 736 + 500] = 0.9;

    assert!(extract(&values, shown, options(1)).is_empty());
}

#[test]
fn detector_postprocess_maps_a_component_back_to_source_coordinates() {
    let image = uniform(736, 416, [0, 0, 0]);
    let [_, _, height, width] = fixed_detector(&image).expect("prepare detector").shape();
    let shown = letterboxed(&image);
    assert_eq!(shown.content, (width, height));
    let mut values = vec![0.0; DETECTOR_SHAPE_AREA];
    for y in 20..22 {
        for x in 10..14 {
            values[y * 736 + x] = 0.9;
        }
    }

    let detections = extract(&values, shown, options(4));

    assert_eq!(detections.len(), 1);
    assert!((f32::from_bits(detections[0].score.bits) - 0.9).abs() < 1e-6);
    let xs = detections[0].polygon.map(|point| point.0);
    let ys = detections[0].polygon.map(|point| point.1);
    assert!((xs.iter().copied().fold(f32::INFINITY, f32::min) - 10.0).abs() < 1e-4);
    assert!((xs.iter().copied().fold(f32::NEG_INFINITY, f32::max) - 14.0).abs() < 1e-4);
    assert!((ys.iter().copied().fold(f32::INFINITY, f32::min) - 20.0).abs() < 1e-4);
    assert!((ys.iter().copied().fold(f32::NEG_INFINITY, f32::max) - 22.0).abs() < 1e-4);
}

#[test]
fn detections_below_the_threshold_are_left_out() {
    let mut values = vec![0.0; DETECTOR_SHAPE_AREA];
    values[10 * 736 + 30] = 0.3;
    values[12 * 736 + 20] = 0.8;
    values[11 * 736 + 40] = 0.5;
    let found = extract(&values, whole(), options(1));
    let scores = found
        .iter()
        .map(|detection| f32::from_bits(detection.score.bits))
        .collect::<Vec<_>>();
    assert_eq!(scores, [0.5, 0.8]);
    let most = DetectorPostprocessOptions { max_boxes: 1, ..options(1) };
    let found = extract(&values, whole(), most);
    assert_eq!(f32::from_bits(found[0].score.bits), 0.8);
    assert_eq!(found.len(), 1);
}

#[test]
fn detector_postprocess_finds_the_cells_of_a_component() {
    let mut values = vec![single(0.0); DETECTOR_SHAPE_AREA];
    for y in 20..22 {
        for x in 10..14 {
            values[y * 736 + x] = single(0.9);
        }
    }
    let components =
        extract_components(&values, &[1, 1, 416, 736], 736, 416, options(4)).expect("postprocess");
    assert_eq!(components.len(), 1);
    assert_eq!(components[0].len(), 8);
    assert_eq!(components[0][0], Cell { x: 10, y: 20 });
    assert!(components[0]
        .iter()
        .all(|cell| (10..14).contains(&cell.x) && (20..22).contains(&cell.y)));
    let none =
        extract_components(&values, &[1, 1, 416, 736], 736, 416, options(9)).expect("postprocess");
    assert!(none.is_empty());
}

#[test]
fn components_touch_at_corners_and_are_found_row_by_row() {
    let rows = [
        "#..#", //
        ".#..", //
        "..#.", //
        "#...", //
    ];
    let mut values = Vec::new();
    for row in rows {
        for cell in row.chars() {
            values.push(single(if cell == '#' { 1.0 } else { 0.0 }));
        }
    }
    let region = Region {
        values: &values,
        stride: 4,
        width: 4,
        height: 4,
        threshold: single(0.5),
    };
    let found = find_components(&region, 1);
    assert_eq!(found.len(), 3);
    assert_eq!(
        found[0],
        [Cell { x: 0, y: 0 }, Cell { x: 1, y: 1 }, Cell { x: 2, y: 2 }]
    );
    assert_eq!(found[1], [Cell { x: 3, y: 0 }]);
    assert_eq!(found[2], [Cell { x: 0, y: 3 }]);
    let total: usize = found.iter().map(|component| component.len()).sum();
    assert_eq!(total, 5);
    assert_eq!(find_components(&region, 2).len(), 1);
}

#[test]
fn detector_outputs_tell_every_refusal() {
    let values = vec![single(0.5); 4];
    let refused = |options: DetectorPostprocessOptions| options.validate().unwrap_err();
    let usual = DetectorPostprocessOptions::default();
    assert_eq!(usual.validate(), Ok(()));
    assert_eq!(f32::from_bits(usual.binary_threshold.bits), 0.2);
    assert_eq!(f32::from_bits(usual.box_threshold.bits), 0.4);
    assert_eq!(f32::from_bits(usual.unclip_ratio.bits), 1.4);
    assert_eq!(
        refused(DetectorPostprocessOptions { binary_threshold: single(1.5), ..usual }),
        DetectionError::BinaryThreshold
    );
    assert_eq!(
        refused(DetectorPostprocessOptions { box_threshold: single(f32::NAN), ..usual }),
        DetectionError::BoxThreshold
    );
    assert_eq!(
        refused(DetectorPostprocessOptions { min_area: 0, ..usual }),
        DetectionError::MinimumArea
    );
    assert_eq!(
        refused(DetectorPostprocessOptions { max_boxes: 0, ..usual }),
        DetectionError::MaximumBoxes
    );
    assert_eq!(
        refused(DetectorPostprocessOptions { unclip_ratio: single(0.0), ..usual }),
        DetectionError::UnclipRatio
    );
    assert_eq!(
        detector_output_shape(&[1, 2, 2, 2], 8),
        Err(DetectionError::Shape)
    );
    assert_eq!(
        detector_output_shape(&[1, 1, usize::MAX, 2], 8),
        Err(DetectionError::ShapeOverflow)
    );
    assert_eq!(
        detector_output_shape(&[1, 1, 2, 2], 5),
        Err(DetectionError::Length { values: 5, expected: 4 })
    );
    assert!(matches!(
        extract_components(&values, &[1, 1, 2, 2], 0, 2, usual),
        Err(DetectionError::EmptyContent)
    ));
    assert!(matches!(
        extract_components(&[single(f32::NAN)], &[1, 1, 1, 1], 1, 1, usual),
        Err(DetectionError::NonFinite)
    ));
}

#[test]
fn detections_are_read_from_the_top_and_the_best_are_kept() {
    let key = |x: f32, y: f32, score: f32| DetectionKey {
        center_x: single(x),
        center_y: single(y),
        score: single(score),
    };
    let keys = [
        key(5.0, 2.0, 0.5),
        key(1.0, 2.0, 0.9),
        key(3.0, -1.0, 0.7),
        key(5.0, 2.0, 0.5),
    ];
    assert_eq!(order_detections(&keys, 10), [2, 1, 0, 3]);
    assert_eq!(order_detections(&keys, 2), [2, 1]);
    assert_eq!(order_detections(&keys, 3), [2, 1, 0]);
    assert_eq!(order_detections(&keys, 1), [1]);
}

fn corner(x: f32, y: f32) -> Corner {
    Corner { x: single(x), y: single(y) }
}

fn rectify(image: &Image, corners: [Corner; 4]) -> Result<Image, RectifyError> {
    let float = |value: Single| f32::from_bits(value.bits);
    let point = |corner: Corner| (float(corner.x), float(corner.y));
    let measure = |corners: [Corner; 4]| {
        let distance = |first: Corner, second: Corner| {
            let (a, b) = (point(first), point(second));
            ((a.0 - b.0).powi(2) + (a.1 - b.1).powi(2)).sqrt()
        };
        let width = distance(corners[0], corners[1]).max(distance(corners[3], corners[2]));
        let height = distance(corners[0], corners[3]).max(distance(corners[1], corners[2]));
        if width <= 0.0 || height <= 0.0 {
            return None;
        }
        Some((width.round() as u32, height.round() as u32))
    };
    let place = |width: u32, height: u32, x: u32, y: u32| {
        let u = (x as f32 + 0.5) / width as f32;
        let v = (y as f32 + 0.5) / height as f32;
        let mix = |a: (f32, f32), b: (f32, f32), t: f32| {
            (a.0 * (1.0 - t) + b.0 * t, a.1 * (1.0 - t) + b.1 * t)
        };
        let top = mix(point(corners[0]), point(corners[1]), u);
        let bottom = mix(point(corners[3]), point(corners[2]), u);
        let source = mix(top, bottom, v);
        let x = (source.0 - 0.5).clamp(0.0, (image.width - 1) as f32);
        let y = (source.1 - 0.5).clamp(0.0, (image.height - 1) as f32);
        Spot {
            x: x.floor() as u32,
            y: y.floor() as u32,
            across: single(x - x.floor()),
            down: single(y - y.floor()),
        }
    };
    let blend = |a: u8, b: u8, c: u8, d: u8, across: Single, down: Single| {
        let (tx, ty) = (float(across), float(down));
        let top = f32::from(a) * (1.0 - tx) + f32::from(b) * tx;
        let bottom = f32::from(c) * (1.0 - tx) + f32::from(d) * tx;
        (top * (1.0 - ty) + bottom * ty).round().clamp(0.0, 255.0) as u8
    };
    rectify_text_crop(image, corners, &measure, &place, &blend)
}

#[test]
fn rectification_preserves_an_axis_aligned_crop() {
    let mut pixels = Vec::new();
    for y in 0..2 {
        for x in 0..4 {
            pixels.extend_from_slice(&[(x + y * 4) as u8, 0, 0]);
        }
    }
    let image = Image::from_pixels(4, 2, pixels).unwrap();
    let crop = rectify(
        &image,
        [corner(0.0, 0.0), corner(4.0, 0.0), corner(4.0, 2.0), corner(0.0, 2.0)],
    )
    .expect("rectify crop");

    assert_eq!((crop.width, crop.height), (4, 2));
    assert_eq!(crop.pixels, image.pixels);
}

#[test]
fn rectification_blends_and_stays_inside_the_image() {
    let image = Image::from_pixels(2, 1, vec![0, 0, 0, 100, 200, 50]).unwrap();
    let crop = rectify(
        &image,
        [corner(0.5, 0.0), corner(1.5, 0.0), corner(1.5, 1.0), corner(0.5, 1.0)],
    )
    .unwrap();
    assert_eq!(crop.pixels, [50, 100, 25]);
    let beyond = rectify(
        &image,
        [corner(9.0, 5.0), corner(10.0, 5.0), corner(10.0, 6.0), corner(9.0, 6.0)],
    )
    .unwrap();
    assert_eq!(beyond.pixels, [100, 200, 50]);
}

#[test]
fn rectification_tells_every_refusal() {
    let square = [corner(0.0, 0.0), corner(1.0, 0.0), corner(1.0, 1.0), corner(0.0, 1.0)];
    let image = uniform(1, 1, [1, 2, 3]);
    let empty = Image::from_pixels(0, 1, Vec::new()).unwrap();
    assert!(matches!(rectify(&empty, square), Err(RectifyError::EmptyImage)));
    let mut broken = square;
    broken[2].y = single(f32::INFINITY);
    assert!(matches!(rectify(&image, broken), Err(RectifyError::NonFinite)));
    let point = [corner(0.0, 0.0); 4];
    assert!(matches!(rectify(&image, point), Err(RectifyError::Size)));
}
