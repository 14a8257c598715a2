use fsscanner::fsscanner_mt::{
    decimal_string, finish_errors, format_path_error, job_error, map_output_path, map_output_paths,
    processing_errors_message,
};

#[test]
fn process_dir_map_preserves_nested_path_and_replaces_suffix() {
    let mapped = map_output_path("/base/input", "/base/output", "/base/input/a/b/source.rs", "out");
    assert_eq!(mapped, Ok(String::from("/base/output/a/b/source.out")));
}

#[test]
fn process_dir_map_multi_builds_all_requested_suffixes() {
    let (first, outputs) =
        map_output_paths("/base/input", "/base/output", "/base/input/source.rs", &["one", "two"])
            .unwrap();
    assert_eq!(first, "/base/output/source.rs");
    assert_eq!(
        outputs,
        vec![String::from("/base/output/source.one"), String::from("/base/output/source.two")]
    );
}

#[test]
fn process_dir_map_propagates_worker_errors() {
    let errors = vec![format_path_error("src/lib.rs", "callback failed")];
    let error = finish_errors(&errors).unwrap_err();
    assert!(error.contains("callback failed"));
    assert_eq!(error, "1 parallel processing error(s)\n- src/lib.rs: callback failed");
    assert_eq!(finish_errors(&Vec::new()), Ok(()));
}

#[test]
fn paths_outside_the_input_root_are_errors() {
    assert_eq!(
        map_output_path("/base/input", "/out", "/elsewhere/x.rs", "out"),
        Err(String::from("prefix not found"))
    );
    assert_eq!(
        map_output_paths("/base/input", "/out", "/base/inputs/x.rs", &["a"]),
        Err(String::from("prefix not found"))
    );
}

#[test]
fn suffix_replacement_follows_path_rules() {
    assert_eq!(map_output_path("in", "out", "in/.bashrc", "bak"), Ok(String::from("out/.bashrc.bak")));
    assert_eq!(map_output_path("in", "out", "in/a.tar.gz", "zip"), Ok(String::from("out/a.tar.zip")));
    assert_eq!(map_output_path("in", "out", "in/a.rs", ""), Ok(String::from("out/a")));
    assert_eq!(map_output_path("in", "", "in/a.rs", "o"), Ok(String::from("a.o")));
    assert_eq!(map_output_path("./in", "/o", "./in/./x/y.rs", "z"), Ok(String::from("/o/x/y.z")));
}

#[test]
fn error_report_counts_and_lists() {
    let errors = vec![String::from("a: x"), String::from("b: y")];
    assert_eq!(processing_errors_message(&errors), "2 parallel processing error(s)\n- a: x\n- b: y");
    assert_eq!(decimal_string(0), "0");
    assert_eq!(decimal_string(1234567890), "1234567890");
    assert_eq!(format_path_error("p", "e"), "p: e");
}

#[test]
fn process_dir_map_multi_propagates_worker_errors() {
    let errors = vec![format_path_error("src/lib.rs", "multi callback failed")];
    let error = finish_errors(&errors).unwrap_err();
    assert!(error.contains("multi callback failed"));
}

#[test]
fn process_dir_state_and_map_propagates_worker_errors() {
    let errors = vec![
        format_path_error("src/a.rs", "state callback failed"),
        format_path_error("src/b.rs", "state callback failed"),
    ];
    let error = finish_errors(&errors).unwrap_err();
    assert!(error.contains("state callback failed"));
    assert!(error.starts_with("2 parallel processing error(s)"));
}

#[test]
fn job_errors_prefer_the_mapping_error() {
    assert_eq!(
        job_error("x.rs", Some("prefix not found"), Some("late")),
        Some(String::from("x.rs: prefix not found"))
    );
    assert_eq!(job_error("x.rs", None, Some("callback failed")), Some(String::from("x.rs: callback failed")));
    assert_eq!(job_error("x.rs", None, None), None);
}
