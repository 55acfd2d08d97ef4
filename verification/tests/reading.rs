use ppocr::ctc::{DecodeError, DecodedText};
use ppocr::images::Image;
use ppocr::preprocess::PreparedInput;
use ppocr::reading::{Output, ReadError, Reader};
use ppocr::single::Single;

fn single(value: f32) -> Single {
    Single { bits: value.to_bits() }
}

fn line(width: u32, height: u32) -> Image {
    let count = width as usize * height as usize * 3;
    Image::from_pixels(width, height, vec![255; count]).unwrap()
}

fn natural(width: u32, height: u32) -> u32 {
    (48.0 * f64::from(width) / f64::from(height)).ceil() as u32
}

fn value(_channel: usize, byte: u8) -> Single {
    single(f32::from(byte) / 255.0)
}

/// Emits the given classes, one at each step.
fn output(classes: &[usize]) -> Output {
    let mut values = vec![single(0.0); classes.len() * 4];
    for (step, class) in classes.iter().enumerate() {
        values[step * 4 + class] = single(1.0);
    }
    Output { shape: vec![1, classes.len(), 4], values }
}

fn score(_values: Vec<Single>, classes: usize, emitted: Vec<(usize, usize)>) -> usize {
    classes * 100 + emitted.len()
}

fn mean(weights: Vec<(usize, usize)>) -> usize {
    weights.iter().map(|weight| weight.0 * weight.1).sum::<usize>()
}

fn read(
    crop: &Image,
    recognize: impl Fn(PreparedInput<Single>) -> Result<Output, String>,
) -> Result<DecodedText<usize>, ReadError<String>> {
    read_with(crop, natural, recognize)
}

fn read_with(
    crop: &Image,
    natural: fn(u32, u32) -> u32,
    recognize: impl Fn(PreparedInput<Single>) -> Result<Output, String>,
) -> Result<DecodedText<usize>, ReadError<String>> {
    let dictionary = ["a", "b", "c"].map(str::to_owned).to_vec();
    let reader = Reader {
        dictionary: &dictionary,
        zero: single(0.0),
        natural,
        value,
        recognize,
        score,
        mean,
    };
    reader.read_line(crop)
}

#[test]
fn lines_are_read_part_by_part_and_joined() {
    let recognize = |input: PreparedInput<Single>| {
        assert_eq!(input.shape(), [1, 3, 48, 320]);
        Ok(output(&[1, 0, 2, 2, 3]))
    };
    let short = read(&line(320, 48), recognize).ok().unwrap();
    assert_eq!(short.text, "abc");
    assert_eq!(short.score, 403 * 3);
    let long = read(&line(400, 48), recognize).ok().unwrap();
    assert_eq!(long.text, "abcab");
    let narrow = read(&line(64, 48), recognize).ok().unwrap();
    assert_eq!(narrow.text, "a");
}

#[test]
fn the_picture_stands_at_the_left_of_the_canvas() {
    let recognize = |input: PreparedInput<Single>| {
        assert_eq!(input.data[0], single(1.0));
        assert_eq!(input.data[99], single(1.0));
        assert_eq!(input.data[100], single(0.0));
        Ok(output(&[0]))
    };
    assert_eq!(read(&line(100, 48), recognize).ok().unwrap().text, "");
}

#[test]
fn every_failure_of_reading_is_told() {
    let fine = |_input: PreparedInput<Single>| Ok(output(&[1]));
    assert!(matches!(read(&line(0, 48), fine), Err(ReadError::Split(_))));
    let failing = |_input: PreparedInput<Single>| Err("no".to_owned());
    assert!(matches!(
        read(&line(10, 10), failing),
        Err(ReadError::Recognize(ref error)) if error == "no"
    ));
    let strange = |_input: PreparedInput<Single>| Ok(Output { shape: vec![1], values: Vec::new() });
    assert!(matches!(
        read(&line(10, 10), strange),
        Err(ReadError::Decode(DecodeError::Shape))
    ));
    assert!(matches!(
        read_with(&line(10, 10), |_width, _height| 0, fine),
        Err(ReadError::Unresizable)
    ));
    assert_eq!(read(&line(1, 1_100_000), fine).ok().unwrap().text, "a");
}
