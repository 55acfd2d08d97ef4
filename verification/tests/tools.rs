use ppocr::commands::{
    count_operations, find_convolutions, find_named, inspect, next_flag, parse_convert_arguments,
    parse_size, ConvertError, FlagStep, InferenceFlag, NodeInfo,
};
use ppocr::cpu_sets::{
    begin_query, continue_query, parse_cpu_sets, preferred_performance_cpu_sets,
    read_little_endian, select_performance_cpu_sets, Query, QueryStep, CPU_SET_ALLOCATED,
    CPU_SET_ALLOCATED_TO_TARGET_PROCESS, CPU_SET_INFORMATION_SIZE, CPU_SET_INFORMATION_TYPE,
    CPU_SET_PARKED,
};
use ppocr::paths::PathStyle;
use ppocr::sidecar::{
    external_tensor_data_locations, relative_sidecar_path, Attribute, FunctionEntry, Graph,
    GraphNode, Model, SidecarError, SparseEntry, TensorEntry, TrainingEntry,
};
use ppocr::staticize::{
    parse_arguments, parse_integer, parse_shape, set_graph_input_shape, set_input_shape,
    ArgumentError, Dimension, InputError, InputInfo, TensorInfo, TypeInfo,
};

fn cpu_set_record(id: u32, efficiency_class: u8, flags: u8) -> Vec<u8> {
    let mut record = vec![0u8; CPU_SET_INFORMATION_SIZE];
    record[0..4].copy_from_slice(&(CPU_SET_INFORMATION_SIZE as u32).to_le_bytes());
    record[4..8].copy_from_slice(&CPU_SET_INFORMATION_TYPE.to_le_bytes());
    record[8..12].copy_from_slice(&id.to_le_bytes());
    record[18] = efficiency_class;
    record[19] = flags;
    record
}

#[test]
fn selects_all_available_cpu_sets_in_highest_heterogeneous_class() {
    let mut buffer = cpu_set_record(3, 0, 0);
    buffer.extend(cpu_set_record(17, 8, 0));
    buffer.extend(cpu_set_record(19, 8, 0));

    let cpu_sets = parse_cpu_sets(&buffer).expect("valid records");
    assert_eq!(&*select_performance_cpu_sets(&cpu_sets), &[17, 19]);
}

#[test]
fn filters_parked_and_unavailable_exclusive_cpu_sets() {
    let mut buffer = cpu_set_record(1, 0, 0);
    buffer.extend(cpu_set_record(2, 9, CPU_SET_PARKED));
    buffer.extend(cpu_set_record(3, 9, CPU_SET_ALLOCATED));
    buffer.extend(cpu_set_record(
        4,
        8,
        CPU_SET_ALLOCATED | CPU_SET_ALLOCATED_TO_TARGET_PROCESS,
    ));

    let cpu_sets = parse_cpu_sets(&buffer).expect("valid records");
    assert_eq!(&*select_performance_cpu_sets(&cpu_sets), &[4]);
}

#[test]
fn homogeneous_cpu_sets_leave_windows_scheduling_unchanged() {
    let mut buffer = cpu_set_record(7, 4, 0);
    buffer.extend(cpu_set_record(11, 4, 0));

    let cpu_sets = parse_cpu_sets(&buffer).expect("valid records");
    assert!(select_performance_cpu_sets(&cpu_sets).is_empty());
}

#[test]
fn rejects_truncated_and_invalid_record_sizes() {
    let mut truncated = cpu_set_record(1, 0, 0);
    truncated.pop();
    assert!(parse_cpu_sets(&truncated).is_none());

    let mut too_small = cpu_set_record(1, 0, 0);
    too_small[0..4].copy_from_slice(&31u32.to_le_bytes());
    assert!(parse_cpu_sets(&too_small[..31]).is_none());

    let mut too_large = cpu_set_record(1, 0, 0);
    too_large[0..4].copy_from_slice(&64u32.to_le_bytes());
    assert!(parse_cpu_sets(&too_large).is_none());

    let mut zero = cpu_set_record(1, 0, 0);
    zero[0..4].copy_from_slice(&0u32.to_le_bytes());
    assert!(parse_cpu_sets(&zero).is_none());
}

#[test]
fn records_of_other_kinds_are_passed_over() {
    let mut buffer = vec![12, 0, 0, 0, 9, 0, 0, 0, 1, 2, 3, 4];
    buffer.extend(cpu_set_record(5, 1, 0));
    buffer.extend(cpu_set_record(6, 2, 0));
    assert_eq!(parse_cpu_sets(&buffer).unwrap().len(), 2);
    assert_eq!(preferred_performance_cpu_sets(Some(&buffer)), [6]);
    assert!(preferred_performance_cpu_sets(None).is_empty());
    assert!(preferred_performance_cpu_sets(Some(&[1, 2, 3])).is_empty());
    assert_eq!(read_little_endian(&[0x78, 0x56, 0x34, 0x12], 0), 0x1234_5678);
}

#[test]
fn a_growing_list_is_asked_for_three_times() {
    assert_eq!(begin_query(0), QueryStep::GiveUp);
    let first = Query { attempts: 0, required: 8 };
    assert_eq!(begin_query(8), QueryStep::Ask(first));
    assert_eq!(continue_query(first, true, 8), QueryStep::Answer(8));
    assert_eq!(continue_query(first, true, 9), QueryStep::GiveUp);
    assert_eq!(continue_query(first, false, 8), QueryStep::GiveUp);
    let second = Query { attempts: 1, required: 16 };
    assert_eq!(continue_query(first, false, 16), QueryStep::Ask(second));
    let third = Query { attempts: 2, required: 24 };
    assert_eq!(continue_query(second, false, 24), QueryStep::Ask(third));
    assert_eq!(continue_query(third, false, 32), QueryStep::GiveUp);
}

#[test]
fn accepts_a_nested_relative_sidecar_path() {
    assert_eq!(
        relative_sidecar_path("weights/model.data", PathStyle::Posix).unwrap(),
        "weights/model.data"
    );
}

#[test]
fn rejects_parent_traversal_in_a_sidecar_path() {
    assert!(relative_sidecar_path("../model.data", PathStyle::Posix).is_err());
}

#[test]
fn sidecar_paths_lose_names_that_stay() {
    assert_eq!(relative_sidecar_path("./a//b/./c/", PathStyle::Posix).unwrap(), "a/b/c");
    assert_eq!(relative_sidecar_path("..a", PathStyle::Posix).unwrap(), "..a");
    assert_eq!(
        relative_sidecar_path("a/../b", PathStyle::Posix),
        Err(SidecarError::NotRelative)
    );
    assert_eq!(relative_sidecar_path("/a", PathStyle::Posix), Err(SidecarError::NotRelative));
    assert_eq!(relative_sidecar_path("", PathStyle::Posix), Err(SidecarError::EmptyPath));
    assert_eq!(relative_sidecar_path("././", PathStyle::Posix), Err(SidecarError::EmptyPath));
}

#[test]
fn sidecar_paths_of_windows_have_two_separators_and_drives() {
    let path = |location: &str| relative_sidecar_path(location, PathStyle::Windows);
    assert_eq!(path(".\\a/b\\.\\c/").unwrap(), "a\\b\\c");
    for location in ["a\\..\\b", "\\a", "/a", "\\\\server\\share", "C:a", "z:\\a", "A:"] {
        assert_eq!(path(location), Err(SidecarError::NotRelative), "{location:?}");
    }
    assert_eq!(path(".\\"), Err(SidecarError::EmptyPath));
    assert_eq!(path("1:a").unwrap(), "1:a");
    assert_eq!(path("a\\C:\\b").unwrap(), "C:b");
    assert_eq!(
        relative_sidecar_path("C:\\a", PathStyle::Posix).unwrap(),
        "C:\\a"
    );
}

#[test]
fn sidecar_paths_are_given_back_unchanged() {
    for (location, style) in [
        ("./a//b/./c/", PathStyle::Posix),
        ("C:\\a//x", PathStyle::Posix),
        (".\\a//b/1:\\", PathStyle::Windows),
    ] {
        let path = relative_sidecar_path(location, style).unwrap();
        assert_ne!(path, location);
        assert_eq!(relative_sidecar_path(&path, style).as_deref(), Ok(path.as_str()));
    }
    let replaced = relative_sidecar_path("a/C:b", PathStyle::Windows).unwrap();
    assert_eq!(replaced, "C:b");
    assert_eq!(
        relative_sidecar_path(&replaced, PathStyle::Windows),
        Err(SidecarError::NotRelative)
    );
}

fn tensor(location: Option<&str>) -> TensorEntry {
    match location {
        Some(location) => TensorEntry {
            data_location: 1,
            external_data: vec![
                ("offset".to_owned(), "0".to_owned()),
                ("location".to_owned(), location.to_owned()),
            ],
        },
        None => TensorEntry { data_location: 0, external_data: Vec::new() },
    }
}

fn attribute() -> Attribute {
    Attribute {
        tensor: None,
        tensors: Vec::new(),
        sparse_tensor: None,
        sparse_tensors: Vec::new(),
        graph: None,
        graphs: Vec::new(),
    }
}

fn graph(initializers: Vec<TensorEntry>) -> Graph {
    Graph { initializers, sparse_initializers: Vec::new(), nodes: Vec::new() }
}

#[test]
fn outside_data_is_listed_once_and_in_order() {
    let mut inner = attribute();
    inner.graph = Some(Box::new(graph(vec![tensor(Some("b/x"))])));
    inner.graphs = vec![graph(vec![tensor(Some("a.b"))])];
    inner.sparse_tensor = Some(SparseEntry {
        values: Some(tensor(Some("b"))),
        indices: Some(tensor(None)),
    });
    let mut top = graph(vec![tensor(Some("c")), tensor(None), tensor(Some("./b"))]);
    top.nodes = vec![GraphNode { attributes: vec![inner] }];
    let model = Model {
        graph: Some(top),
        training: vec![TrainingEntry {
            initialization: Some(graph(vec![tensor(Some("a/b"))])),
            algorithm: None,
        }],
        functions: vec![FunctionEntry { attributes: vec![attribute()], nodes: Vec::new() }],
    };
    assert_eq!(
        external_tensor_data_locations(&model, PathStyle::Posix).unwrap(),
        ["a/b", "a.b", "b", "b/x", "c"]
    );
}

#[test]
fn outside_data_without_a_location_is_refused() {
    let mut entry = tensor(Some("a"));
    entry.external_data.remove(1);
    let model = Model {
        graph: Some(graph(vec![entry, tensor(Some("/a"))])),
        training: Vec::new(),
        functions: Vec::new(),
    };
    assert_eq!(
        external_tensor_data_locations(&model, PathStyle::Posix),
        Err(SidecarError::NoLocation)
    );
}

#[test]
fn replaces_dynamic_nchw_dimensions() {
    let mut input = InputInfo {
        kind: Some(TypeInfo {
            tensor: Some(TensorInfo {
                element: 1,
                shape: Some(vec![
                    Dimension::Unset,
                    Dimension::Unset,
                    Dimension::Unset,
                    Dimension::Unset,
                ]),
            }),
        }),
    };

    set_input_shape(&mut input, [1, 3, 416, 736]).unwrap();

    let dimensions = input
        .kind
        .unwrap()
        .tensor
        .unwrap()
        .shape
        .unwrap()
        .iter()
        .map(|dimension| match dimension {
            Dimension::Value(value) => *value,
            _ => panic!("dimension is not fixed"),
        })
        .collect::<Vec<_>>();
    assert_eq!(dimensions, [1, 3, 416, 736]);
}

#[test]
fn inputs_without_an_element_kind_are_refused() {
    let mut input = InputInfo { kind: None };
    assert_eq!(
        set_input_shape(&mut input, [1; 4]),
        Err(InputError::NoType)
    );
    input.kind = Some(TypeInfo { tensor: None });
    assert_eq!(
        set_input_shape(&mut input, [1; 4]),
        Err(InputError::NotTensor)
    );
    input.kind = Some(TypeInfo {
        tensor: Some(TensorInfo { element: 0, shape: None }),
    });
    assert_eq!(
        set_input_shape(&mut input, [1; 4]),
        Err(InputError::NoElement)
    );
}

fn arguments(values: &[&str]) -> Vec<Option<String>> {
    values.iter().map(|value| Some((*value).to_owned())).collect()
}

#[test]
fn staticize_arguments_come_in_any_order() {
    let parsed = parse_arguments(&arguments(&["in", "--shape", "1", "3", "+48", "320", "out"]))
        .unwrap()
        .unwrap();
    assert_eq!((parsed.input, parsed.output), (0, 6));
    assert_eq!(parsed.shape, [1, 3, 48, 320]);
    assert!(parse_arguments(&arguments(&["-h"])).unwrap().is_none());
    let mut listed = arguments(&["--shape", "1", "1", "1", "1", "a"]);
    listed.push(None);
    let parsed = parse_arguments(&listed).unwrap().unwrap();
    assert_eq!((parsed.input, parsed.output), (5, 6));
}

#[test]
fn staticize_arguments_tell_every_refusal() {
    let refused = |values: &[&str]| parse_arguments(&arguments(values)).unwrap_err();
    assert_eq!(refused(&["a"]), ArgumentError::Paths);
    assert_eq!(refused(&["a", "b"]), ArgumentError::NoShape);
    assert_eq!(refused(&["a", "-x"]), ArgumentError::UnknownOption(1));
    assert_eq!(refused(&["--shape", "1", "2"]), ArgumentError::MissingValue(3));
    assert_eq!(
        refused(&["--shape", "1", "x", "1", "1"]),
        ArgumentError::NotInteger(2)
    );
    assert_eq!(
        refused(&["--shape", "0", "1", "1", "1"]),
        ArgumentError::NotPositive(1)
    );
    assert_eq!(
        refused(&["--shape", "1", "1", "1", "1", "--shape"]),
        ArgumentError::RepeatedShape
    );
    assert_eq!(
        parse_shape(&[Some("1".to_owned()), None], 0),
        Err(ArgumentError::NotText(2))
    );
}

#[test]
fn integers_are_read_as_the_standard_library_reads_them() {
    for text in [
        "0",
        "-5",
        "+7",
        "9223372036854775807",
        "9223372036854775808",
        "-9223372036854775808",
        "-9223372036854775809",
        "",
        "-",
        "+",
        "1_0",
        "00012",
        "\u{662}",
    ] {
        assert_eq!(parse_integer(text), text.parse::<i64>().ok(), "{text:?}");
        assert_eq!(parse_size(text), text.parse::<usize>().ok(), "{text:?}");
    }
}

#[test]
fn converter_arguments_are_two_paths_and_a_shape() {
    let good = arguments(&["a", "b", "--shape", "1", "3", "48", "320"]);
    assert_eq!(parse_convert_arguments(&good), Ok([1, 3, 48, 320]));
    let refused = |values: &[&str]| parse_convert_arguments(&arguments(values)).unwrap_err();
    assert_eq!(refused(&["a"]), ConvertError::Paths);
    assert_eq!(refused(&["a", "b", "c"]), ConvertError::Flag);
    assert_eq!(refused(&["a", "b", "--shape", "1"]), ConvertError::Missing);
    assert_eq!(
        refused(&["a", "b", "--shape", "x"]),
        ConvertError::NotNumber
    );
    assert_eq!(
        refused(&["a", "b", "--shape", "0"]),
        ConvertError::NotPositive
    );
    assert_eq!(
        refused(&["a", "b", "--shape", "1", "1", "1", "1", "1"]),
        ConvertError::Unexpected
    );
    assert_eq!(
        parse_convert_arguments(&[
            None,
            None,
            Some("--shape".to_owned()),
            None,
        ]),
        Err(ConvertError::NotText)
    );
}

#[test]
fn inference_flags_take_the_value_behind_them() {
    let listed = arguments(&["--image", "a.png", "--min-area", "7", "--dict"]);
    assert_eq!(next_flag(&listed, 0), FlagStep::Value(InferenceFlag::Image, 1));
    assert_eq!(
        next_flag(&listed, 2),
        FlagStep::Value(InferenceFlag::MinimumArea, 3)
    );
    assert_eq!(
        next_flag(&listed, 4),
        FlagStep::MissingValue(InferenceFlag::Dictionary)
    );
    assert_eq!(next_flag(&listed, 5), FlagStep::Done);
    assert_eq!(next_flag(&arguments(&["--help"]), 0), FlagStep::Help);
    assert_eq!(next_flag(&arguments(&["x"]), 0), FlagStep::Unknown);
}

#[test]
fn operations_are_counted_in_the_order_of_names() {
    let names = vec![
        Some("Relu".to_owned()),
        Some("Conv".to_owned()),
        None,
        Some("Relu".to_owned()),
    ];
    assert_eq!(
        count_operations(&names),
        [
            ("<missing>".to_owned(), 1),
            ("Conv".to_owned(), 1),
            ("Relu".to_owned(), 2),
        ]
    );
    assert_eq!(find_named(&names, "Relu"), Some(3));
    assert_eq!(find_named(&names, "Add"), None);
}

fn node(operation: Option<&str>, inputs: &[&str]) -> NodeInfo {
    NodeInfo {
        operation: operation.map(str::to_owned),
        inputs: inputs.iter().map(|name| name.to_string()).collect(),
    }
}

#[test]
fn convolutions_are_listed_with_the_places_of_their_weights() {
    let nodes = [
        node(Some("Conv"), &["x", "w"]),
        node(Some("Relu"), &["x", "w"]),
        node(None, &["x", "w"]),
        node(Some("ConvTranspose"), &["x", "absent"]),
        node(Some("Conv"), &["w"]),
        node(Some("Conv"), &["x", "v", "w"]),
    ];
    let names = [Some("w".to_owned()), Some("v".to_owned()), None, Some("w".to_owned())];
    let places = [(0, Some(3)), (3, None), (4, None), (5, Some(1))];
    assert_eq!(find_convolutions(&nodes, &names), places);
    let told = inspect(1, 1, &nodes, &names).unwrap();
    assert_eq!(told.convolutions, places);
    let counts = [("<missing>", 1), ("Conv", 3), ("ConvTranspose", 1), ("Relu", 1)]
        .map(|(name, count)| (name.to_owned(), count));
    assert_eq!(told.operations, counts);
}

#[test]
fn models_are_inspected_with_one_input_and_one_output() {
    for (inputs, outputs) in [(0, 1), (1, 0), (2, 1), (1, 2)] {
        assert!(inspect(inputs, outputs, &[], &[]).is_none());
    }
    let told = inspect(1, 1, &[], &[]).unwrap();
    assert!(told.operations.is_empty() && told.convolutions.is_empty());
}

#[test]
fn only_the_one_input_of_a_graph_is_fixed() {
    let input = |element: i32| InputInfo {
        kind: Some(TypeInfo { tensor: Some(TensorInfo { element, shape: None }) }),
    };
    let mut inputs = Vec::new();
    assert_eq!(
        set_graph_input_shape(&mut inputs, [1, 3, 48, 320]),
        Err(InputError::Count)
    );
    let mut inputs = vec![input(1), input(1)];
    assert_eq!(
        set_graph_input_shape(&mut inputs, [1, 3, 48, 320]),
        Err(InputError::Count)
    );
    assert_eq!(inputs.len(), 2);
    let mut inputs = vec![input(0)];
    assert_eq!(
        set_graph_input_shape(&mut inputs, [1, 3, 48, 320]),
        Err(InputError::NoElement)
    );
    let mut inputs = vec![input(7)];
    assert_eq!(set_graph_input_shape(&mut inputs, [1, 3, 48, 320]), Ok(()));
    let tensor = inputs.pop().unwrap().kind.unwrap().tensor.unwrap();
    assert_eq!(tensor.element, 7);
    let fixed = tensor.shape.unwrap();
    for (dimension, expected) in fixed.iter().zip([1, 3, 48, 320]) {
        assert!(matches!(dimension, Dimension::Value(value) if *value == expected));
    }
    assert_eq!(fixed.len(), 4);
}
