use smells::cli::{
    analyse, analysed_item_is_in_current_folder, build_json_file_analysis,
    build_json_folder_analysis, build_json_result_analysis, compute_lines_count_metric,
    extract_analysed_item_key, extract_file_name, file_to_analyse_path,
    is_current_folder, Analysis, FileAnalysis, FolderAnalysis, Metrics,
};
use smells::formatters::json::JsonValue;
use smells::metrics::lines_count::count_byte_lines;

fn obj(entries: Vec<(&str, JsonValue)>) -> JsonValue {
    JsonValue::Object(entries.into_iter().map(|(k, v)| (k.to_string(), v)).collect())
}

fn lines(n: u64) -> JsonValue {
    obj(vec![("lines_metric", JsonValue::Number(n))])
}

#[test]
fn item_key_is_the_file_name_or_the_whole_path() {
    assert_eq!(extract_analysed_item_key("tests/data/folder"), "folder");
    assert_eq!(extract_analysed_item_key("."), ".");
    assert_eq!(extract_analysed_item_key("/"), "/");
    assert_eq!(extract_analysed_item_key("a/.."), "a/..");
}

#[test]
fn current_folder_is_recognised_by_its_components() {
    assert!(is_current_folder("."));
    assert!(is_current_folder("./"));
    assert!(!is_current_folder("./a"));
    assert!(!is_current_folder(".."));
    assert!(analysed_item_is_in_current_folder(".", true));
    assert!(!analysed_item_is_in_current_folder(".", false));
}

#[test]
fn file_name_is_the_key_of_the_last_entry() {
    assert_eq!(extract_file_name(&vec![]), "");
    assert_eq!(
        extract_file_name(&vec![String::from("d/a.txt"), String::from("d/b.txt")]),
        "b.txt"
    );
    assert_eq!(file_to_analyse_path("d", "b.txt"), "d/b.txt");
}

#[test]
fn byte_lines_are_counted_as_read_line_by_line() {
    assert_eq!(count_byte_lines(b""), 0);
    assert_eq!(count_byte_lines(b"a"), 1);
    assert_eq!(count_byte_lines(b"a\nb\n"), 2);
    assert_eq!(count_byte_lines(b"a\n\xff\nc"), 3);
}

#[test]
fn lines_metric_is_counted_only_for_a_non_empty_folder_other_than_current() {
    let content: &[u8] = b"1\n2\n3\n";
    assert_eq!(compute_lines_count_metric("data", Some(content), true, false), 3);
    assert_eq!(compute_lines_count_metric("data", None, true, false), 0);
    assert_eq!(compute_lines_count_metric("data", Some(content), false, false), 0);
    assert_eq!(compute_lines_count_metric("data", Some(content), true, true), 0);
    assert_eq!(compute_lines_count_metric(".", Some(content), true, false), 0);
}

#[test]
fn analysis_of_a_folder_holds_its_file() {
    match analyse("tests/data/single", String::from("file.txt"), 4, false, true) {
        Analysis::FolderAnalysis(folder) => {
            assert_eq!(folder.folder_key, "single");
            assert_eq!(folder.metrics.lines_metric, 4);
            assert_eq!(folder.folder_content.len(), 1);
            match &folder.folder_content[0] {
                Analysis::FileAnalysis(file) => {
                    assert_eq!(file.file_key, "file.txt");
                    assert_eq!(file.metrics.lines_metric, 4);
                },
                _ => panic!("expected a file"),
            }
        },
        _ => panic!("expected a folder"),
    }
}

#[test]
fn analysis_of_an_empty_or_current_folder_holds_nothing() {
    for (item, empty, readable) in [("d", true, true), (".", false, true)] {
        match analyse(item, String::new(), 0, empty, readable) {
            Analysis::FolderAnalysis(folder) => assert!(folder.folder_content.is_empty()),
            _ => panic!("expected a folder"),
        }
    }
}

#[test]
fn json_of_prototype_analyses() {
    let file = FileAnalysis { file_key: String::from("f"), metrics: Metrics { lines_metric: 2 } };
    assert_eq!(build_json_file_analysis(&file), obj(vec![("f", obj(vec![("metrics", lines(2))]))]));
    let folder = FolderAnalysis {
        folder_key: String::from("d"),
        metrics: Metrics { lines_metric: 2 },
        folder_content: vec![
            Analysis::FileAnalysis(file),
            Analysis::FolderAnalysis(FolderAnalysis {
                folder_key: String::from("e"),
                metrics: Metrics { lines_metric: 0 },
                folder_content: vec![],
            }),
        ],
    };
    let expected = obj(vec![(
        "d",
        obj(vec![
            (
                "folder_content",
                JsonValue::Array(vec![
                    obj(vec![("f", obj(vec![("metrics", lines(2))]))]),
                    obj(vec![(
                        "e",
                        obj(vec![("folder_content", JsonValue::Array(vec![])), ("metrics", lines(0))]),
                    )]),
                ]),
            ),
            ("metrics", lines(2)),
        ]),
    )]);
    assert_eq!(build_json_folder_analysis(&folder), expected);
    assert_eq!(build_json_result_analysis(&Analysis::FolderAnalysis(folder)), expected);
}
