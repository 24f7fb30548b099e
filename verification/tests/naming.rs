use arco::dense_mapping::DenseIndexMapping;
use arco::naming::{
    artifact_relative_path, axis_symbol_from_name, block_directory_name, cell_coordinates,
    constraint_block_name, element_name_for_id, element_name_of, find_array_element,
    is_autogenerated_array_name, name_shape, normalize_model_view_backend_family, offset_of,
    print_strides, raw_result_index, retained_artifacts, sanitize_artifact_path_part, ArraySpan,
    NameShape,
};

fn spans() -> Vec<ArraySpan> {
    vec![
        ArraySpan { base_name: "x".to_string(), start_id: 0, len: 4 },
        ArraySpan { base_name: "flow[a]".to_string(), start_id: 4, len: 3 },
        ArraySpan { base_name: "z".to_string(), start_id: 7, len: 1 },
    ]
}

#[test]
fn element_names() {
    assert_eq!(element_name_of("x", 4, 2), "x[2]");
    assert_eq!(element_name_of("z", 1, 0), "z");
    assert_eq!(constraint_block_name("cap", 3, 1), "cap[1]");
    assert_eq!(constraint_block_name("cap", 1, 0), "cap");
}

#[test]
fn names_are_read_back() {
    assert_eq!(name_shape("x[12]"), NameShape::Indexed { base: "x".to_string(), offset: 12 });
    assert_eq!(name_shape("a[b][3]"), NameShape::Indexed { base: "a[b]".to_string(), offset: 3 });
    assert_eq!(name_shape("x[+4]"), NameShape::Indexed { base: "x".to_string(), offset: 4 });
    assert_eq!(name_shape("plain"), NameShape::Plain);
    assert_eq!(name_shape("x[]"), NameShape::Malformed);
    assert_eq!(name_shape("x[1"), NameShape::Malformed);
    assert_eq!(name_shape("x[-1]"), NameShape::Malformed);
}

#[test]
fn cells_are_found_by_name() {
    let spans = spans();
    assert_eq!(find_array_element(&spans, "x[3]"), Some(3));
    assert_eq!(find_array_element(&spans, "x[4]"), None);
    assert_eq!(find_array_element(&spans, "flow[a][2]"), Some(6));
    assert_eq!(find_array_element(&spans, "z"), Some(7));
    assert_eq!(find_array_element(&spans, "x"), None);
    assert_eq!(find_array_element(&spans, "y[0]"), None);
    for id in 0..8u32 {
        let name = element_name_for_id(&spans, id).unwrap();
        assert_eq!(find_array_element(&spans, &name), Some(id));
    }
    assert_eq!(element_name_for_id(&spans, 8), None);
}

#[test]
fn span_offsets() {
    assert_eq!(offset_of(4, 3, 4), Some(0));
    assert_eq!(offset_of(4, 3, 6), Some(2));
    assert_eq!(offset_of(4, 3, 7), None);
    assert_eq!(offset_of(4, 3, 3), None);
}

#[test]
fn generated_names_are_recognized() {
    let identity = DenseIndexMapping::from_indices(&[0, 1, 2]);
    assert!(is_autogenerated_array_name("x", 10, 3, &identity, 11, "x[1]"));
    assert!(!is_autogenerated_array_name("x", 10, 3, &identity, 11, "x[2]"));
    assert!(!is_autogenerated_array_name("x", 10, 3, &identity, 13, "x[3]"));
    let sparse = DenseIndexMapping::from_indices(&[5, 9]);
    assert!(is_autogenerated_array_name("y", 0, 2, &sparse, 1, "y[9]"));
    let single = DenseIndexMapping::from_indices(&[0]);
    assert!(is_autogenerated_array_name("s", 0, 1, &single, 0, "s"));
    assert!(is_autogenerated_array_name("s", 0, 1, &single, 0, "s[0]"));
}

#[test]
fn coordinates_of_cells() {
    let shape = [2, 3];
    let strides = print_strides(&shape);
    assert_eq!(strides, vec![3, 1]);
    assert_eq!(cell_coordinates(5, &shape, &strides), Some(vec![1, 2]));
    assert_eq!(print_strides(&[2, 0]), vec![1, 1]);
    assert_eq!(cell_coordinates(0, &[2, 0], &[1, 1]), None);
}

#[test]
fn axis_symbols() {
    assert_eq!(axis_symbol_from_name("Time", 0), "t");
    assert_eq!(axis_symbol_from_name("_2nodes", 3), "n");
    assert_eq!(axis_symbol_from_name("123", 1), "i2");
    assert_eq!(axis_symbol_from_name("", 9), "i10");
}

#[test]
fn artifact_paths() {
    assert_eq!(sanitize_artifact_path_part("my block/1"), "my_block_1");
    assert_eq!(sanitize_artifact_path_part("ok-name_2"), "ok-name_2");
    assert_eq!(sanitize_artifact_path_part(""), "block");
    assert_eq!(sanitize_artifact_path_part("é"), "_");
    assert_eq!(block_directory_name(7, "dispatch"), "007-dispatch");
    assert_eq!(block_directory_name(1234, ""), "1234-block");
    assert_eq!(artifact_relative_path("007-dispatch", "model_snapshot"), "007-dispatch/model_snapshot.json");
    assert_eq!(retained_artifacts(true, false, true), vec!["stage_diagnostics", "solution_summary"]);
    assert_eq!(retained_artifacts(false, false, false), Vec::<&str>::new());
}

#[test]
fn backend_families_and_result_indices() {
    assert_eq!(normalize_model_view_backend_family("arco-rust-highs"), "highs");
    assert_eq!(normalize_model_view_backend_family("arco-rust-scip"), "scip");
    assert_eq!(normalize_model_view_backend_family("gurobi"), "gurobi");
    assert_eq!(raw_result_index(3), Ok(3));
    assert_eq!(raw_result_index(-2), Err(-2));
}
