use smells::analysis_module::analysis::{do_internal_analysis, TopAnalysis};
use smells::data_sources::file_explorer::FakeFileExplorer;
use smells::formatters::json::{build_analysis_metrics_for_json, convert_analysis_to_json, JsonValue};
use smells::metrics::fake_metrics::{BrokenMetric, FakeMetric};
use smells::metrics::metric::MetricScoreType::Score;

fn obj(entries: Vec<(&str, JsonValue)>) -> JsonValue {
    JsonValue::Object(entries.into_iter().map(|(k, v)| (k.to_string(), v)).collect())
}

#[test]
fn file_analysis_json_holds_its_metrics() {
    let analysis = TopAnalysis {
        file_name: String::from("file1"),
        metrics: vec![(String::from("fake1"), Ok(Score(1))), (String::from("x"), Err(String::from("boom")))],
        folder_content: None,
    };
    let expected = obj(vec![(
        "file1",
        obj(vec![(
            "metrics",
            obj(vec![
                ("fake1", JsonValue::Number(1)),
                ("x", JsonValue::Str(String::from("Analysis error"))),
            ]),
        )]),
    )]);
    assert_eq!(convert_analysis_to_json(&analysis), expected);
}

#[test]
fn folder_analysis_json_lists_its_content() {
    let files = vec![String::from("root/folder1/file1"), String::from("root/file2")];
    let explorer = FakeFileExplorer::_new(files);
    let analysis = do_internal_analysis("root", &explorer, &vec![FakeMetric::new(1)]);
    let metrics = |n: u64| obj(vec![("fake1", JsonValue::Number(n))]);
    let file = |name: &str| obj(vec![(name, obj(vec![("metrics", metrics(1))]))]);
    let folder1 = obj(vec![(
        "folder1",
        obj(vec![
            ("folder_content", JsonValue::Array(vec![file("file1")])),
            ("metrics", metrics(1)),
        ]),
    )]);
    let expected = obj(vec![(
        "root",
        obj(vec![
            ("folder_content", JsonValue::Array(vec![file("file2"), folder1])),
            ("metrics", metrics(2)),
        ]),
    )]);
    assert_eq!(convert_analysis_to_json(&analysis), expected);
}

#[test]
fn metrics_json_turns_errors_into_analysis_error() {
    let explorer = FakeFileExplorer::_new(vec![String::from("r/f")]);
    let analysis = do_internal_analysis("r", &explorer, &vec![BrokenMetric::new()]);
    assert_eq!(
        build_analysis_metrics_for_json(&analysis),
        vec![(String::from("broken"), JsonValue::Str(String::from("Analysis error")))]
    );
}
