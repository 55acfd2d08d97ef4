use ppocr::annotations::{
    longest_annotation_crop, read_record, record_sides, widest_crop, AnnotationError, Record,
};
use ppocr::paths::{file_name, PathStyle};
use ppocr::preprocess::{longest_crop, Crop, Sides};

const POSIX: PathStyle = PathStyle::Posix;

fn sides(points: Vec<(u64, u64)>) -> Option<Sides> {
    let number = |bits: u64| f64::from_bits(bits) as u32;
    let xs = points.iter().map(|point| number(point.0)).collect::<Vec<_>>();
    let ys = points.iter().map(|point| number(point.1)).collect::<Vec<_>>();
    Some(Sides {
        left: *xs.iter().min()?,
        top: *ys.iter().min()?,
        right: *xs.iter().max()?,
        bottom: *ys.iter().max()?,
    })
}

#[test]
fn records_are_read_for_the_wanted_picture() {
    let line = r#"{"image": "set/a.png", "detections": [
        {"polygon": [[1, 2], [5, 2.5], [5, 9]]},
        {"polygon": "none"},
        {"polygon": [[3], [4, "x"], 7, [2, 2, 9], [8, 3]]},
        {},
        {"polygon": []}
    ]}"#;
    let found = read_record(line, "a.png", &sides, POSIX).unwrap().unwrap();
    assert_eq!(
        found,
        [
            Sides { left: 1, top: 2, right: 5, bottom: 9 },
            Sides { left: 2, top: 2, right: 8, bottom: 3 },
        ]
    );
    assert_eq!(
        longest_crop(&found),
        Some(Crop { x: 2, y: 2, width: 6, height: 1 })
    );
    assert_eq!(read_record(line, "b.png", &sides, POSIX), Ok(None));
}

#[test]
fn records_of_other_forms_hold_nothing() {
    assert_eq!(read_record("[1, 2]", "a", &sides, POSIX), Ok(None));
    assert_eq!(read_record(r#"{"image": 3}"#, "3", &sides, POSIX), Ok(None));
    assert_eq!(
        read_record(r#"{"image": "a", "detections": {}}"#, "a", &sides, POSIX),
        Ok(Some(Vec::new()))
    );
    assert_eq!(
        read_record("{", "a", &sides, POSIX),
        Err(AnnotationError::NotJson)
    );
    let record = Record {
        text: Some("x/y/".to_owned()),
        outlines: Some(vec![
            None,
            Some(vec![Some(vec![Some(4f64.to_bits()), Some(5f64.to_bits())])]),
        ]),
    };
    let found = record_sides(&record, "y", &sides, POSIX).unwrap();
    assert_eq!(found, [Sides { left: 4, top: 5, right: 4, bottom: 5 }]);
    let record = Record { text: Some("x/y/".to_owned()), outlines: None };
    assert_eq!(record_sides(&record, "y", &sides, POSIX), Some(Vec::new()));
    assert_eq!(record_sides(&record, "x", &sides, POSIX), None);
}

#[test]
fn file_names_are_what_the_standard_library_finds() {
    for path in ["a", "a/b.png", "a/b/", "a/./", "..", "a/..", "/", "", ".", "./a", "//a//b//."] {
        let expected = std::path::Path::new(path)
            .file_name()
            .map(|name| name.to_str().unwrap().to_owned());
        assert_eq!(file_name(path, POSIX), expected, "{path:?}");
    }
}

#[test]
fn file_names_of_windows_paths_know_drives_and_shares() {
    let cases = [
        ("set\\a.png", Some("a.png")),
        ("set/b\\a.png\\", Some("a.png")),
        ("C:a.png", Some("a.png")),
        ("C:", None),
        ("C:\\", None),
        ("1:", Some("1:")),
        ("\\\\server\\share", None),
        ("//server/share/a.png", Some("a.png")),
        ("\\\\server", Some("server")),
        ("\\a", Some("a")),
        ("a\\..", None),
    ];
    for (path, expected) in cases {
        let found = file_name(path, PathStyle::Windows);
        assert_eq!(found.as_deref(), expected, "{path:?}");
    }
    assert_eq!(file_name("set\\a.png", POSIX).as_deref(), Some("set\\a.png"));
    assert_eq!(file_name("C:", POSIX).as_deref(), Some("C:"));
}

fn lines(lines: &[&str]) -> Vec<String> {
    lines.iter().map(|line| line.to_string()).collect()
}

#[test]
fn the_first_record_of_a_picture_gives_its_widest_box() {
    let first = r#"{"image": "b.png", "detections": [{"polygon": [[0, 0], [90, 90]]}]}"#;
    let second = r#"{"image": "set/a.png", "detections": [
        {"polygon": [[0, 1], [3, 4]]},
        {"polygon": [[7, 1], [80, 2]]},
        {"polygon": [[5, 2], [8, 90]]}
    ]}"#;
    let third = r#"{"image": "a.png", "detections": [{"polygon": [[0, 0], [10, 10]]}]}"#;
    let crop = |given: &[&str], wanted: &str| {
        longest_annotation_crop(&lines(given), wanted, &sides, POSIX, 10, 20)
    };
    assert_eq!(
        crop(&[first, second, third, "{"], "a.png"),
        Ok(Crop { x: 0, y: 1, width: 3, height: 3 })
    );
    assert_eq!(
        crop(&[third, second], "a.png"),
        Ok(Crop { x: 0, y: 0, width: 10, height: 10 })
    );
    assert_eq!(crop(&[first, "{", second], "a.png"), Err(AnnotationError::NotJson));
    assert_eq!(crop(&[first, third], "c.png"), Err(AnnotationError::NoRecord));
    assert_eq!(crop(&[], "a.png"), Err(AnnotationError::NoRecord));
    let empty = r#"{"image": "a.png", "detections": [{"polygon": [[10, 0], [12, 5]]}]}"#;
    assert_eq!(crop(&[empty, third], "a.png"), Err(AnnotationError::NoBox));
    assert_eq!(
        crop(&[r#"{"image": "a.png"}"#, third], "a.png"),
        Err(AnnotationError::NoBox)
    );
}

#[test]
fn boxes_are_cut_off_at_the_edges_of_a_picture() {
    let boxes = [
        Sides { left: 2, top: 3, right: 4, bottom: 9 },
        Sides { left: 6, top: 3, right: u32::MAX, bottom: u32::MAX },
        Sides { left: 5, top: 0, right: 7, bottom: 1 },
    ];
    assert_eq!(
        widest_crop(&boxes, 10, 8),
        Some(Crop { x: 6, y: 3, width: 4, height: 5 })
    );
    assert_eq!(
        widest_crop(&boxes, 8, 8),
        Some(Crop { x: 2, y: 3, width: 2, height: 5 })
    );
    assert_eq!(widest_crop(&boxes, 2, 8), None);
}
