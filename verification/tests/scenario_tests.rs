use smells::analysis_module::analysis::do_internal_analysis;
use smells::data_sources::file_explorer::FakeFileExplorer;
use smells::formatters::json::{convert_analysis_to_json, JsonValue};
use smells::metrics::lines_count::LinesCountMetric;
use smells::metrics::metric::IMetric;
use smells::metrics::project_metrics::ProjectMetricValue;

/// Counts the lines of in-memory files.
struct InMemoryLinesCount {
    files: Vec<(String, String)>,
}

impl IMetric for InMemoryLinesCount {
    type Value = ProjectMetricValue;

    fn analyse(&self, file_path: &str) -> Option<ProjectMetricValue> {
        let content = self.files.iter().find(|(path, _)| path == file_path).map(|(_, c)| c.as_str());
        LinesCountMetric::new().analyse_content(content).map(ProjectMetricValue::LinesCount)
    }
}

fn obj(entries: Vec<(&str, JsonValue)>) -> JsonValue {
    JsonValue::Object(entries.into_iter().map(|(k, v)| (k.to_string(), v)).collect())
}

fn lines(n: u64) -> JsonValue {
    obj(vec![("lines_count", JsonValue::Number(n))])
}

fn lines_of(n: usize) -> String {
    "line\n".repeat(n)
}

#[test]
fn folder_with_a_folder_and_a_file_is_summarised() {
    let root = "tests/data/folder_with_folder_and_file";
    let files = vec![
        (format!("{}/file1.txt", root), lines_of(1)),
        (format!("{}/folder/file10.txt", root), lines_of(10)),
    ];
    let paths = files.iter().map(|(p, _)| p.clone()).collect();
    let metric = InMemoryLinesCount { files };
    let analysis = do_internal_analysis(root, &FakeFileExplorer::_new(paths), &vec![metric]);
    let expected = obj(vec![(
        "folder_with_folder_and_file",
        obj(vec![
            (
                "folder_content",
                JsonValue::Array(vec![
                    obj(vec![("file1.txt", obj(vec![("metrics", lines(1))]))]),
                    obj(vec![(
                        "folder",
                        obj(vec![
                            (
                                "folder_content",
                                JsonValue::Array(vec![obj(vec![(
                                    "file10.txt",
                                    obj(vec![("metrics", lines(10))]),
                                )])]),
                            ),
                            ("metrics", lines(10)),
                        ]),
                    )]),
                ]),
            ),
            ("metrics", lines(11)),
        ]),
    )]);
    assert_eq!(convert_analysis_to_json(&analysis), expected);
}

#[test]
fn folder_with_multiple_files_is_summarised() {
    let root = "tests/data/folder_with_multiple_files";
    let files = vec![
        (format!("{}/file5.txt", root), lines_of(5)),
        (format!("{}/file1.txt", root), lines_of(1)),
    ];
    let paths = files.iter().map(|(p, _)| p.clone()).collect();
    let metric = InMemoryLinesCount { files };
    let analysis = do_internal_analysis(root, &FakeFileExplorer::_new(paths), &vec![metric]);
    let expected = obj(vec![(
        "folder_with_multiple_files",
        obj(vec![
            (
                "folder_content",
                JsonValue::Array(vec![
                    obj(vec![("file1.txt", obj(vec![("metrics", lines(1))]))]),
                    obj(vec![("file5.txt", obj(vec![("metrics", lines(5))]))]),
                ]),
            ),
            ("metrics", lines(6)),
        ]),
    )]);
    assert_eq!(convert_analysis_to_json(&analysis), expected);
}
