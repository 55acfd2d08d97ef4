use ppocr::ctc::{
    append_with_overlap, decode_ctc_greedy, join_decoded_texts, recognizer_output_shape,
    DecodeError, DecodedText,
};
use ppocr::dictionary::{
    parse_dictionary, parse_paddlex_character_dict, parse_yaml_scalar, DictionaryError,
};
use ppocr::single::{are_finite, argmax, Single};
use ppocr::text::{chars_of, is_white, lines, string_of, trim};

fn singles(values: &[f32]) -> Vec<Single> {
    values
        .iter()
        .map(|value| Single { bits: value.to_bits() })
        .collect()
}

fn row_probability(row: &[f32], value: f32) -> f32 {
    let sum = row.iter().sum::<f32>();
    if row.iter().all(|candidate| *candidate >= 0.0) && (sum - 1.0).abs() <= 0.01 {
        return value.clamp(0.0, 1.0);
    }
    let maximum = row.iter().copied().fold(f32::NEG_INFINITY, f32::max);
    let denominator = row
        .iter()
        .map(|candidate| (*candidate - maximum).exp())
        .sum::<f32>();
    ((value - maximum).exp() / denominator).clamp(0.0, 1.0)
}

fn decode(
    values: &[f32],
    shape: &[usize],
    dictionary: &[String],
    content_width: usize,
) -> Result<DecodedText<f32>, DecodeError> {
    let classes = shape.last().copied().unwrap_or(1);
    let score = |emitted: Vec<(usize, usize)>| -> f32 {
        if emitted.is_empty() {
            return 0.0;
        }
        let mut total = 0.0f64;
        for (time, class) in &emitted {
            let row = &values[time * classes..(time + 1) * classes];
            total += f64::from(row_probability(row, row[*class]).max(1e-8)).ln();
        }
        (total / emitted.len() as f64).exp() as f32
    };
    decode_ctc_greedy(&singles(values), shape, dictionary, content_width, &score)
}

fn join(parts: &[DecodedText<f32>]) -> DecodedText<f32> {
    let mean = |weights: Vec<(f32, usize)>| -> f32 {
        let total: usize = weights.iter().map(|(_, weight)| weight).sum();
        if total == 0 {
            return 0.0;
        }
        let sum: f64 = weights
            .iter()
            .map(|(score, weight)| f64::from(*score) * *weight as f64)
            .sum();
        (sum / total as f64) as f32
    };
    join_decoded_texts(parts, &mean)
}

#[test]
fn ctc_decoder_collapses_repetitions_and_honors_blank_tokens() {
    let dictionary = vec!["A".to_owned(), "B".to_owned()];
    let values = [
        0.9, 0.1, 0.0, // blank
        0.1, 0.8, 0.1, // A
        0.1, 0.7, 0.2, // repeated A
        0.8, 0.1, 0.1, // blank
        0.1, 0.1, 0.8, // B
    ];

    let decoded = decode(&values, &[1, 5, 3], &dictionary, 320).expect("decode CTC");

    assert_eq!(decoded.text, "AB");
    assert!((decoded.score - 0.8).abs() < 1e-6);
}

#[test]
fn ctc_decoder_reads_nothing_behind_the_content() {
    let dictionary = vec!["A".to_owned(), "B".to_owned()];
    let content = [
        0.1, 0.8, 0.1, // A
        0.8, 0.1, 0.1, // blank
        0.1, 0.2, 0.7, // B
    ];
    let mut padded = content.to_vec();
    padded.extend_from_slice(&[0.9, 0.1, 0.0, 0.9, 0.1, 0.0]);
    let mut other = content.to_vec();
    other.extend_from_slice(&[0.0, 9.0, 0.0, 0.0, 0.0, -7.0]);
    let first = decode(&padded, &[1, 5, 3], &dictionary, 192).unwrap();
    let second = decode(&other, &[1, 5, 3], &dictionary, 192).unwrap();
    assert_eq!(first.text, "AB");
    assert_eq!((second.text, second.score), (first.text, first.score));
    assert_eq!(decode(&other, &[1, 5, 3], &dictionary, 193).unwrap().text, "ABA");
}

#[test]
fn ctc_decoder_rejects_a_dictionary_with_the_wrong_class_count() {
    let error = decode(&[1.0, 0.0, 0.0, 0.0], &[1, 1, 4], &["A".to_owned()], 320)
        .expect_err("class count must fail");
    assert_eq!(error, DecodeError::Classes { classes: 4, entries: 1 });
}

#[test]
fn ctc_decoder_supports_the_paddlex_implicit_space_class() {
    let decoded = decode(&[0.0, 0.1, 0.9], &[1, 1, 3], &["A".to_owned()], 320)
        .expect("decode implicit space");

    assert_eq!(decoded.text, " ");
    assert!((decoded.score - 0.9).abs() < 1e-6);
}

#[test]
fn ctc_decoder_tells_every_refusal() {
    let dictionary = vec!["A".to_owned()];
    let refused = |values: &[f32], shape: &[usize], width: usize| {
        decode(values, shape, &dictionary, width).unwrap_err()
    };
    assert_eq!(refused(&[0.0, 1.0], &[1, 2], 320), DecodeError::Shape);
    assert_eq!(refused(&[0.0], &[1, 1, 1], 320), DecodeError::Shape);
    assert_eq!(
        refused(&[0.0, 1.0], &[1, usize::MAX, 2], 320),
        DecodeError::ShapeOverflow
    );
    assert_eq!(
        refused(&[0.0], &[1, 1, 2], 320),
        DecodeError::Length { values: 1, expected: 2 }
    );
    assert_eq!(
        refused(&[0.0, 1.0], &[1, 1, 2], 321),
        DecodeError::ContentWidth(321)
    );
    assert_eq!(
        refused(&[0.0, 1.0], &[1, 1, 2], 0),
        DecodeError::ContentWidth(0)
    );
    assert_eq!(
        refused(&[0.0, f32::NAN], &[1, 1, 2], 320),
        DecodeError::NonFinite
    );
    assert_eq!(recognizer_output_shape(&[1, 3, 2], 6), Ok((3, 2)));
}

#[test]
fn ctc_decoder_reads_only_the_steps_within_the_content() {
    let dictionary = vec!["A".to_owned(), "B".to_owned()];
    let values = [0.0, 1.0, 0.0, 0.0, 0.0, 1.0, 0.0, 1.0, 0.0, 0.0, 0.0, 1.0];
    let decoded = decode(&values, &[1, 4, 3], &dictionary, 160).unwrap();
    assert_eq!(decoded.text, "AB");
    let decoded = decode(&values, &[1, 4, 3], &dictionary, 161).unwrap();
    assert_eq!(decoded.text, "ABA");
    let decoded = decode(&values, &[1, 4, 3], &dictionary, 320).unwrap();
    assert_eq!(decoded.text, "ABAB");
}

#[test]
fn the_last_of_equal_maxima_wins_and_zero_beats_negative_zero() {
    let values = singles(&[1.0, 3.0, 3.0, 2.0]);
    assert_eq!(argmax(&values, 0, 4), 2);
    let values = singles(&[0.0, -0.0]);
    assert_eq!(argmax(&values, 0, 2), 0);
    let values = singles(&[-2.0, -1.0]);
    assert_eq!(argmax(&values, 0, 2), 1);
    assert!(are_finite(&values));
    assert!(!are_finite(&singles(&[f32::INFINITY])));
}

#[test]
fn decoded_chunks_remove_a_shared_boundary_once() {
    let decoded = join(&[
        DecodedText {
            text: "hello wor".to_owned(),
            score: 0.8,
        },
        DecodedText {
            text: "world".to_owned(),
            score: 0.9,
        },
    ]);

    assert_eq!(decoded.text, "hello world");
    assert!(decoded.score > 0.8 && decoded.score < 0.9);
}

#[test]
fn one_shared_character_is_kept_twice() {
    let mut target = "ab".to_owned();
    assert_eq!(append_with_overlap(&mut target, "bc"), 2);
    assert_eq!(target, "abbc");
    assert_eq!(append_with_overlap(&mut target, ""), 0);
    let mut empty = String::new();
    assert_eq!(append_with_overlap(&mut empty, "xyz"), 3);
    assert_eq!(empty, "xyz");
    let mut same = "aaaa".to_owned();
    assert_eq!(append_with_overlap(&mut same, "aaaa"), 0);
    assert_eq!(same, "aaaa");
}

#[test]
fn no_more_than_thirty_two_characters_are_shared() {
    let long = "x".repeat(40);
    let mut target = long.clone();
    assert_eq!(append_with_overlap(&mut target, &long), 8);
    assert_eq!(target.len(), 48);
}

#[test]
fn nothing_joined_is_empty_with_the_score_of_nothing() {
    let decoded = join(&[]);
    assert_eq!(decoded.text, "");
    assert_eq!(decoded.score, 0.0);
}

#[test]
fn dictionary_parser_accepts_a_paddlex_model_config() {
    let dictionary = parse_dictionary(
        "PostProcess:\n  character_dict:\n  - A\n  - ''''\n  - ' '\n  use_space_char: true\n",
    )
    .expect("parse model dictionary");

    assert_eq!(dictionary, ["A", "'", " "]);
}

#[test]
fn dictionary_parser_preserves_unquoted_whitespace_characters() {
    let dictionary = parse_dictionary("PostProcess:\n  character_dict:\n  -  \n  - \u{3000}\n")
        .expect("parse whitespace characters");

    assert_eq!(dictionary, [" ", "\u{3000}"]);
}

#[test]
fn plain_dictionaries_have_one_entry_on_each_line() {
    assert_eq!(
        parse_dictionary("\u{feff}A\r\nB\nC").unwrap(),
        ["A", "B", "C"]
    );
    assert_eq!(parse_dictionary(""), Err(DictionaryError::Empty));
    assert_eq!(
        parse_dictionary("A\n\nB"),
        Err(DictionaryError::EmptyEntry(2))
    );
}

#[test]
fn character_lists_tell_the_line_of_every_refusal() {
    assert_eq!(
        parse_dictionary("character_dict:\n- 'a\n"),
        Err(DictionaryError::UnterminatedSingle(2))
    );
    assert_eq!(
        parse_dictionary("character_dict:\n- \"\n"),
        Err(DictionaryError::UnterminatedDouble(2))
    );
    assert_eq!(
        parse_dictionary("character_dict:\n\n  nested: 1\n"),
        Err(DictionaryError::ExpectedEntry(3))
    );
    assert_eq!(
        parse_dictionary("character_dict:\n"),
        Err(DictionaryError::Empty)
    );
    assert_eq!(parse_paddlex_character_dict("A\nB"), Ok(None));
    assert_eq!(
        parse_paddlex_character_dict("  character_dict:\n  - \"x\"\n"),
        Ok(Some(vec!["x".to_owned()]))
    );
    assert_eq!(parse_yaml_scalar("'it''s'", 4), Ok("it's".to_owned()));
    assert_eq!(parse_yaml_scalar("plain", 4), Ok("plain".to_owned()));
    assert_eq!(
        parse_yaml_scalar("'", 4),
        Err(DictionaryError::UnterminatedSingle(4))
    );
}

#[test]
fn lines_end_before_their_line_feeds() {
    let read = |text: &str| -> Vec<String> {
        lines(&chars_of(text))
            .iter()
            .map(|line| string_of(line))
            .collect()
    };
    for text in ["", "a", "a\n", "a\r\nb", "\n\n", "a\rb\r", "x\r\r\ny"] {
        let expected: Vec<String> = text.lines().map(str::to_owned).collect();
        assert_eq!(read(text), expected, "{text:?}");
    }
}

#[test]
fn white_space_is_trimmed_at_both_ends() {
    for text in ["", "  a b ", "\u{2003}x\u{a0}", "\t\n", "plain"] {
        assert_eq!(string_of(&trim(&chars_of(text))), text.trim());
    }
    for value in 0..=0x3100u32 {
        if let Some(character) = char::from_u32(value) {
            assert_eq!(is_white(character), character.is_whitespace());
        }
    }
}
