use smells::analysis::{all_file_names_exist, build_final_analysis_structure, do_internal_analysis, TopAnalysis};
use smells::analysis_module::analysis::{analyse_all_files, FileAnalysis};
use smells::data_sources::file_explorer::{FakeFileExplorer, IFileExplorer};
use smells::metrics::fake_metrics::{BrokenMetric, FakeMetric};
use smells::metrics::line_count::LinesCountValue;
use smells::metrics::metric::{AnalysisError, IMetricValue, MetricScoreType};
use smells::metrics::metric::MetricScoreType::Score;

type Scores = Vec<(String, Option<Result<MetricScoreType, AnalysisError>>)>;

fn build_analysis_structure(
    root_name: String,
    metrics: Scores,
    content: Vec<(String, TopAnalysis)>,
) -> TopAnalysis {
    TopAnalysis { file_name: root_name, metrics, folder_content: Some(content) }
}

fn file(name: &str, metrics: Scores) -> (String, TopAnalysis) {
    (name.to_string(), TopAnalysis { file_name: name.to_string(), metrics, folder_content: None })
}

#[test]
fn analysis_with_0_file_should_return_empty_hashmap() {
    // Given
    let fake_file_explorer = FakeFileExplorer::_new(vec![]);

    // When
    let analyses = analyse_all_files(fake_file_explorer.discover(), &vec![FakeMetric::new(2)]);

    // Then
    assert_eq!(analyses.len(), 0);
}

#[test]
fn analysis_with_1_file_and_brokenmetric_should_return_an_error() {
    // Given
    let fake_file_explorer = FakeFileExplorer::_new(vec![String::from("root/file1")]);

    // When
    let analyses = analyse_all_files(fake_file_explorer.discover(), &vec![BrokenMetric::new()]);

    // Then
    assert_eq!(analyses.get(0).unwrap().file_path, String::from("root/file1"));
    assert_eq!(
        analyses.get(0).unwrap().metrics.first().unwrap().get_score(),
        Err(String::from("Analysis error"))
    );
}

#[test]
fn analysis_with_1_file_should_return_one_analysis() {
    // Given
    let fake_file_explorer = FakeFileExplorer::_new(vec![String::from("root/file1")]);

    // When
    let analyses = analyse_all_files(fake_file_explorer.discover(), &vec![FakeMetric::new(2)]);

    // Then
    assert_eq!(analyses.get(0).unwrap().file_path, String::from("root/file1"));
    assert_eq!(analyses.get(0).unwrap().metrics.first().unwrap().get_score(), Ok(Score(2)));
}

#[test]
fn analysis_with_2_files_should_return_two_analysis() {
    // Given
    let fake_file_explorer =
        FakeFileExplorer::_new(vec![String::from("root/file1"), String::from("root/file2")]);

    // When
    let analyses = analyse_all_files(fake_file_explorer.discover(), &vec![FakeMetric::new(2)]);

    // Then
    assert_eq!(analyses.len(), 2);
}

#[test]
fn analyse_internal_with_empty_root_and_empty_metrics() {
    // Given
    let root = "root";
    let fake_file_explorer = FakeFileExplorer::_new(vec![]);
    let metrics: Vec<FakeMetric> = vec![];

    // When
    let actual_result_analysis = do_internal_analysis(root, &fake_file_explorer, &metrics);

    // Then
    let expected_result_analysis = build_analysis_structure(root.to_string(), vec![], vec![]);
    assert_eq!(Some(expected_result_analysis), actual_result_analysis);
}

#[test]
fn analyse_internal_with_2_files_and_empty_metrics() {
    // Given
    let root_name = "root";
    let fake_file_explorer =
        FakeFileExplorer::_new(vec![String::from("root/file1"), String::from("root/file2")]);
    let metrics: Vec<FakeMetric> = vec![];

    // When
    let actual_result_analysis = do_internal_analysis(root_name, &fake_file_explorer, &metrics);

    // Then
    let expected_result_analysis = TopAnalysis {
        file_name: String::from(root_name),
        metrics: vec![],
        folder_content: Some(vec![file("file1", vec![]), file("file2", vec![])]),
    };
    assert_eq!(Some(expected_result_analysis), actual_result_analysis);
}

#[test]
fn analyse_internal_with_1_file_and_fakemetric4_and_fakemetric10() {
    // Given
    let root_name = "root";
    let fake_file_explorer = FakeFileExplorer::_new(vec![String::from("root/file1")]);
    let metrics = vec![FakeMetric::new(4), FakeMetric::new(10)];

    // When
    let actual_root_analysis = do_internal_analysis(root_name, &fake_file_explorer, &metrics);

    // Then (keys in their sorted order: "fake10" before "fake4")
    let expected_metrics: Scores = vec![
        (String::from("fake10"), Some(Ok(Score(10)))),
        (String::from("fake4"), Some(Ok(Score(4)))),
    ];
    let expected_root_analysis = TopAnalysis {
        file_name: String::from(root_name),
        metrics: expected_metrics.clone(),
        folder_content: Some(vec![file("file1", expected_metrics)]),
    };
    assert_eq!(Some(expected_root_analysis), actual_root_analysis);
}

#[test]
fn analyse_internal_with_1_file_and_brokenmetric() {
    // Given
    let root_name = "root";
    let fake_file_explorer = FakeFileExplorer::_new(vec![String::from("root/file1")]);
    let metrics = vec![BrokenMetric::new()];

    // When
    let actual_root_analysis = do_internal_analysis(root_name, &fake_file_explorer, &metrics);

    // Then
    let expected_metrics: Scores =
        vec![(String::from("broken"), Some(Err("Analysis error".to_string())))];
    let expected_root_analysis = TopAnalysis {
        file_name: String::from(root_name),
        metrics: expected_metrics.clone(),
        folder_content: Some(vec![file("file1", expected_metrics)]),
    };
    assert_eq!(Some(expected_root_analysis), actual_root_analysis);
}

#[test]
fn internal_analyse_with_empty_root_and_fakemetric0() {
    // Given
    let fake_file_explorer = FakeFileExplorer::_new(vec![]);
    let metrics = vec![FakeMetric::new(0)];

    // When
    let actual_root_analysis = do_internal_analysis("empty_root", &fake_file_explorer, &metrics);

    // Then
    let expected_root_analysis = TopAnalysis {
        file_name: String::from("empty_root"),
        metrics: vec![],
        folder_content: Some(vec![]),
    };
    assert_eq!(Some(expected_root_analysis), actual_root_analysis)
}

#[test]
fn internal_analyse_with_1_file_and_fakemetric1() {
    // Given
    let root_name = "root_with_1_file";
    let fake_file_explorer = FakeFileExplorer::_new(vec![String::from("root_with_1_file/file1")]);
    let metrics = vec![FakeMetric::new(1)];

    // When
    let actual_root_analysis = do_internal_analysis(root_name, &fake_file_explorer, &metrics);

    // Then
    let expected_metrics: Scores = vec![(String::from("fake1"), Some(Ok(Score(1))))];
    let expected_root_analysis = TopAnalysis {
        file_name: String::from(root_name),
        metrics: expected_metrics.clone(),
        folder_content: Some(vec![file("file1", expected_metrics)]),
    };
    assert_eq!(Some(expected_root_analysis), actual_root_analysis)
}

#[test]
fn analyse_internal_of_a_file_in_a_folder_with_fakemetric1() {
    // Given
    let root_name = "root_with_1_file_in_1_folder";
    let fake_file_explorer =
        FakeFileExplorer::_new(vec![String::from("root_with_1_file_in_1_folder/folder1/file1")]);
    let metrics = vec![FakeMetric::new(1)];

    // When
    let actual_root_analysis = do_internal_analysis(root_name, &fake_file_explorer, &metrics);

    // Then
    let expected_metrics: Scores = vec![(String::from("fake1"), Some(Ok(Score(1))))];
    let expected_folder1_analysis = TopAnalysis {
        file_name: String::from("folder1"),
        metrics: expected_metrics.clone(),
        folder_content: Some(vec![file("file1", expected_metrics.clone())]),
    };
    let expected_root_analysis = TopAnalysis {
        file_name: String::from(root_name),
        metrics: expected_metrics,
        folder_content: Some(vec![(String::from("folder1"), expected_folder1_analysis)]),
    };
    assert_eq!(Some(expected_root_analysis), actual_root_analysis)
}

#[test]
fn analyse_internal_of_2_file_in_1_folder_in_1_subfolder_in_root_with_empty_metrics() {
    let root_name = "root_with_2_file_in_1_folder_in_1_subfolder";
    let fake_file_explorer = FakeFileExplorer::_new(vec![
        String::from("root_with_2_file_in_1_folder_in_1_subfolder/folder1/subfolder1/file1"),
        String::from("root_with_2_file_in_1_folder_in_1_subfolder/folder1/subfolder1/file2"),
    ]);
    let metrics: Vec<FakeMetric> = vec![];

    // When
    let actual_root_analysis = do_internal_analysis(root_name, &fake_file_explorer, &metrics);

    // Then
    let expected_subfolder1_analysis = TopAnalysis {
        file_name: String::from("subfolder1"),
        metrics: vec![],
        folder_content: Some(vec![file("file1", vec![]), file("file2", vec![])]),
    };
    let expected_folder1_analysis = TopAnalysis {
        file_name: String::from("folder1"),
        metrics: vec![],
        folder_content: Some(vec![(String::from("subfolder1"), expected_subfolder1_analysis)]),
    };
    let expected_root_analysis = TopAnalysis {
        file_name: String::from(root_name),
        metrics: vec![],
        folder_content: Some(vec![(String::from("folder1"), expected_folder1_analysis)]),
    };
    assert_eq!(Some(expected_root_analysis), actual_root_analysis)
}

#[test]
fn analyse_internal_of_2_file_in_1_folder_in_root_with_fakemetric1_should_add_files_scores() {
    // Given
    let root_name = "root_with_2_file_in_1_folder";
    let fake_file_explorer = FakeFileExplorer::_new(vec![
        String::from("root_with_2_file_in_1_folder/folder1/file1"),
        String::from("root_with_2_file_in_1_folder/folder1/file2"),
    ]);
    let metrics = vec![FakeMetric::new(1)];

    // When
    let actual_root_analysis = do_internal_analysis(root_name, &fake_file_explorer, &metrics);

    // Then
    let expected_metrics: Scores = vec![(String::from("fake1"), Some(Ok(Score(1))))];
    let expected_folder_metrics: Scores = vec![(String::from("fake1"), Some(Ok(Score(2))))];
    let expected_folder1_analysis = TopAnalysis {
        file_name: String::from("folder1"),
        metrics: expected_folder_metrics.clone(),
        folder_content: Some(vec![
            file("file1", expected_metrics.clone()),
            file("file2", expected_metrics),
        ]),
    };
    let expected_root_analysis = TopAnalysis {
        file_name: String::from(root_name),
        metrics: expected_folder_metrics,
        folder_content: Some(vec![(String::from("folder1"), expected_folder1_analysis)]),
    };
    assert_eq!(Some(expected_root_analysis), actual_root_analysis)
}

#[test]
fn flat_analysis_is_named_by_the_root_base_name_and_keeps_files_below_it() {
    let fake_file_explorer = FakeFileExplorer::_new(vec![
        String::from("some/root/folder1/file2"),
        String::from("some/root/file1"),
        String::from("elsewhere/file3"),
    ]);
    let metrics = vec![FakeMetric::new(3)];
    let actual = do_internal_analysis("some/root", &fake_file_explorer, &metrics);
    let scores: Scores = vec![(String::from("fake3"), Some(Ok(Score(3))))];
    let summed: Scores = vec![(String::from("fake3"), Some(Ok(Score(6))))];
    let folder1 = TopAnalysis {
        file_name: String::from("folder1"),
        metrics: scores.clone(),
        folder_content: Some(vec![file("file2", scores.clone())]),
    };
    let expected = TopAnalysis {
        file_name: String::from("root"),
        metrics: summed,
        folder_content: Some(vec![file("file1", scores), (String::from("folder1"), folder1)]),
    };
    assert_eq!(Some(expected), actual);
}

#[test]
fn final_structure_sums_the_values_of_files_at_the_same_place() {
    let analyses = vec![
        FileAnalysis { file_path: String::from("r/x"), metrics: vec![LinesCountValue { line_count: Ok(1) }] },
        FileAnalysis {
            file_path: String::from("r/x"),
            metrics: vec![LinesCountValue { line_count: Ok(4) }],
        },
    ];
    let actual = build_final_analysis_structure("r", &analyses);
    let scores: Scores = vec![(String::from("lines_count"), Some(Ok(Score(5))))];
    assert_eq!(actual.metrics, scores);
    assert_eq!(actual.folder_content.unwrap()[0].0, "x");
}

#[test]
fn flat_analysis_refuses_a_found_path_without_file_name() {
    let fake_file_explorer =
        FakeFileExplorer::_new(vec![String::from("root/file1"), String::from("root/..")]);
    let metrics = vec![FakeMetric::new(1)];
    let actual = do_internal_analysis("root", &fake_file_explorer, &metrics);
    assert_eq!(actual, None);
}

#[test]
fn all_file_names_exist_tells_paths_without_file_name() {
    let named = vec![FileAnalysis { file_path: String::from("r/x"), metrics: vec![LinesCountValue { line_count: Ok(1) }] }];
    let unnamed = vec![FileAnalysis { file_path: String::from("r/.."), metrics: vec![LinesCountValue { line_count: Ok(1) }] }];
    assert!(all_file_names_exist(&named));
    assert!(!all_file_names_exist(&unnamed));
}
