use smells::analysis_module::analysis::{
    analyse_all_files, combine_hierarchical_analysis, do_internal_analysis, FileAnalysis,
    HierarchicalAnalysis, TopAnalysis,
};
use smells::data_sources::file_explorer::{FakeFileExplorer, IFileExplorer};
use smells::metrics::fake_metrics::{BrokenMetric, FakeMetric};
use smells::metrics::line_count::LinesCountValue;
use smells::metrics::metric::{AnalysisError, IMetricValue, MetricScoreType};
use smells::metrics::metric::MetricScoreType::Score;

type Scores = Vec<(String, Result<MetricScoreType, AnalysisError>)>;

fn build_analysis_structure(
    root_name: String,
    metrics: Scores,
    content: Vec<(String, TopAnalysis)>,
) -> TopAnalysis {
    TopAnalysis { file_name: root_name, metrics, folder_content: Some(content) }
}

fn file(name: &str, metrics: Scores) -> TopAnalysis {
    TopAnalysis { file_name: name.to_string(), metrics, folder_content: None }
}

fn entry(analysis: TopAnalysis) -> (String, TopAnalysis) {
    (analysis.file_name.clone(), analysis)
}

#[test]
fn build_hier_analysis_from_file_analysis_test() {
    // Given
    let first_file_analysis: FileAnalysis<LinesCountValue> = FileAnalysis {
        file_path: String::from("root/dir1/dir2/file1"),
        metrics: vec![],
    };
    // When
    let first_file_hierarchical_analysis = HierarchicalAnalysis::new(&first_file_analysis);
    println!("{:?}", first_file_hierarchical_analysis);
}

#[test]
fn combine_hierarchical_analysis_test() {
    let first_analysis = HierarchicalAnalysis::new(&FileAnalysis {
        file_path: String::from("root/dir1/dir2/dir3/file1"),
        metrics: vec![LinesCountValue { line_count: Ok(5) }],
    });
    let second_analysis = HierarchicalAnalysis::new(&FileAnalysis {
        file_path: String::from("root/dir1/dir2/dir3b/file2"),
        metrics: vec![LinesCountValue { line_count: Ok(3) }],
    });
    println!("{:?}", combine_hierarchical_analysis(first_analysis, second_analysis));
}

#[test]
fn analysis_analysis_with_0_file_should_return_empty_hashmap() {
    // Given
    let fake_file_explorer = FakeFileExplorer::_new(vec![]);

    // When
    let analyses = analyse_all_files(fake_file_explorer.discover(), &vec![FakeMetric::new(2)]);

    // Then
    assert_eq!(analyses.len(), 0);
}

#[test]
fn analysis_analysis_with_1_file_and_brokenmetric_should_return_an_error() {
    // Given
    let files_to_analyze = vec![String::from("root/file1")];
    let fake_file_explorer = FakeFileExplorer::_new(files_to_analyze);

    // When
    let analyses = analyse_all_files(fake_file_explorer.discover(), &vec![BrokenMetric::new()]);

    // Then
    assert_eq!(analyses.get(0).unwrap().file_path, String::from("root/file1"));
    assert_eq!(
        analyses.get(0).unwrap().metrics.first().unwrap().get_score(),
        Err(String::from("Analysis error"))
    );
}

#[test]
fn analysis_analysis_with_1_file_should_return_one_analysis() {
    // Given
    let files_to_analyze = vec![String::from("root/file1")];
    let fake_file_explorer = FakeFileExplorer::_new(files_to_analyze);

    // When
    let analyses = analyse_all_files(fake_file_explorer.discover(), &vec![FakeMetric::new(2)]);

    // Then
    assert_eq!(analyses.get(0).unwrap().file_path, String::from("root/file1"));
    assert_eq!(analyses.get(0).unwrap().metrics.first().unwrap().get_score(), Ok(Score(2)));
}

#[test]
fn analysis_analysis_with_2_files_should_return_two_analysis() {
    // Given
    let files_to_analyze = vec![String::from("root/file1"), String::from("root/file2")];
    let fake_file_explorer = FakeFileExplorer::_new(files_to_analyze);

    // When
    let analyses = analyse_all_files(fake_file_explorer.discover(), &vec![FakeMetric::new(2)]);

    // Then
    assert_eq!(analyses.len(), 2);
}

#[test]
fn analysis_analyse_internal_with_empty_root_and_empty_metrics() {
    // Given
    let root = "root";
    let fake_file_explorer = FakeFileExplorer::_new(vec![]);
    let metrics: Vec<FakeMetric> = vec![];

    // When
    let actual_result_analysis = do_internal_analysis(root, &fake_file_explorer, &metrics);

    // Then
    let expected_result_analysis = build_analysis_structure(root.to_string(), vec![], vec![]);
    assert_eq!(expected_result_analysis, actual_result_analysis);
}

#[test]
fn analysis_analyse_internal_with_2_files_and_empty_metrics() {
    // Given
    let root_name = "root";
    let files_to_analyze = vec![String::from("root/file1"), String::from("root/file2")];
    let fake_file_explorer = FakeFileExplorer::_new(files_to_analyze);
    let metrics: Vec<FakeMetric> = vec![];

    // When
    let actual_result_analysis = do_internal_analysis(root_name, &fake_file_explorer, &metrics);

    // Then
    let expected_file_analysis = vec![entry(file("file1", vec![])), entry(file("file2", vec![]))];
    let expected_result_analysis = TopAnalysis {
        file_name: String::from(root_name),
        metrics: vec![],
        folder_content: Some(expected_file_analysis),
    };
    assert_eq!(expected_result_analysis, actual_result_analysis);
}

#[test]
fn analysis_analyse_internal_with_1_file_and_fakemetric4_and_fakemetric10() {
    // Given
    let root_name = "root";
    let files_to_analyze = vec![String::from("root/file1")];
    let fake_file_explorer = FakeFileExplorer::_new(files_to_analyze);
    let metrics = vec![FakeMetric::new(4), FakeMetric::new(10)];

    // When
    let actual_root_analysis = do_internal_analysis(root_name, &fake_file_explorer, &metrics);

    // Then (keys in their sorted order: "fake10" before "fake4")
    let expected_metrics: Scores =
        vec![(String::from("fake10"), Ok(Score(10))), (String::from("fake4"), Ok(Score(4)))];
    let expected_file_analysis = file("file1", expected_metrics.clone());
    let expected_root_analysis = TopAnalysis {
        file_name: String::from(root_name),
        metrics: expected_metrics,
        folder_content: Some(vec![entry(expected_file_analysis)]),
    };
    assert_eq!(expected_root_analysis, actual_root_analysis);
}

#[test]
fn analysis_analyse_internal_with_1_file_and_brokenmetric() {
    // Given
    let root_name = "root";
    let files_to_analyze = vec![String::from("root/file1")];
    let fake_file_explorer = FakeFileExplorer::_new(files_to_analyze);
    let metrics = vec![BrokenMetric::new()];

    // When
    let actual_root_analysis = do_internal_analysis(root_name, &fake_file_explorer, &metrics);

    // Then
    let expected_metrics: Scores = vec![(String::from("broken"), Err("Analysis error".to_string()))];
    let expected_file_analysis = file("file1", expected_metrics.clone());
    let expected_root_analysis = TopAnalysis {
        file_name: String::from(root_name),
        metrics: expected_metrics,
        folder_content: Some(vec![entry(expected_file_analysis)]),
    };
    assert_eq!(expected_root_analysis, actual_root_analysis);
}

#[test]
fn analysis_internal_analyse_with_empty_root_and_fakemetric0() {
    // Given
    let fake_file_explorer = FakeFileExplorer::_new(vec![]);
    let metrics = vec![FakeMetric::new(0)];

    // When
    let actual_root_analysis = do_internal_analysis("empty_root", &fake_file_explorer, &metrics);

    // Then
    let expected_root_analysis = TopAnalysis {
        file_name: String::from("empty_root"),
        metrics: vec![],
        folder_content: Some(vec![]),
    };
    assert_eq!(expected_root_analysis, actual_root_analysis)
}

#[test]
fn analysis_internal_analyse_with_1_file_and_fakemetric1() {
    // Given
    let root_name = "root_with_1_file";
    let files_to_analyze = vec![String::from("root_with_1_file/file1")];
    let fake_file_explorer = FakeFileExplorer::_new(files_to_analyze);
    let metrics = vec![FakeMetric::new(1)];

    // When
    let actual_root_analysis = do_internal_analysis(root_name, &fake_file_explorer, &metrics);

    // Then
    let expected_metrics: Scores = vec![(String::from("fake1"), Ok(Score(1)))];
    let expected_file_analysis = file("file1", expected_metrics.clone());
    let expected_root_analysis = TopAnalysis {
        file_name: String::from(root_name),
        metrics: expected_metrics,
        folder_content: Some(vec![entry(expected_file_analysis)]),
    };
    assert_eq!(expected_root_analysis, actual_root_analysis)
}

#[test]
fn analysis_analyse_internal_of_a_file_in_a_folder_with_fakemetric1() {
    // Given
    let root_name = "root_with_1_file_in_1_folder";
    let files_to_analyze = vec![String::from("root_with_1_file_in_1_folder/folder1/file1")];
    let fake_file_explorer = FakeFileExplorer::_new(files_to_analyze);
    let metrics = vec![FakeMetric::new(1)];

    // When
    let actual_root_analysis = do_internal_analysis(root_name, &fake_file_explorer, &metrics);

    // Then
    let expected_metrics: Scores = vec![(String::from("fake1"), Ok(Score(1)))];
    let expected_file_analysis = file("file1", expected_metrics.clone());
    let expected_folder1_analysis = TopAnalysis {
        file_name: String::from("folder1"),
        metrics: expected_metrics.clone(),
        folder_content: Some(vec![entry(expected_file_analysis)]),
    };
    let expected_root_analysis = TopAnalysis {
        file_name: String::from(root_name),
        metrics: expected_metrics,
        folder_content: Some(vec![entry(expected_folder1_analysis)]),
    };
    assert_eq!(expected_root_analysis, actual_root_analysis)
}

#[test]
fn analysis_analyse_internal_of_2_file_in_1_folder_in_1_subfolder_in_root_with_empty_metrics() {
    let root_name = "root_with_2_file_in_1_folder_in_1_subfolder";
    let files_to_analyze = vec![
        String::from("root_with_2_file_in_1_folder_in_1_subfolder/folder1/subfolder1/file1"),
        String::from("root_with_2_file_in_1_folder_in_1_subfolder/folder1/subfolder1/file2"),
    ];
    let fake_file_explorer = FakeFileExplorer::_new(files_to_analyze);
    let metrics: Vec<FakeMetric> = vec![];

    // When
    let actual_root_analysis = do_internal_analysis(root_name, &fake_file_explorer, &metrics);

    // Then
    let expected_subfolder1_analysis = TopAnalysis {
        file_name: String::from("subfolder1"),
        metrics: vec![],
        folder_content: Some(vec![entry(file("file1", vec![])), entry(file("file2", vec![]))]),
    };
    let expected_folder1_analysis = TopAnalysis {
        file_name: String::from("folder1"),
        metrics: vec![],
        folder_content: Some(vec![entry(expected_subfolder1_analysis)]),
    };
    let expected_root_analysis = TopAnalysis {
        file_name: String::from(root_name),
        metrics: vec![],
        folder_content: Some(vec![entry(expected_folder1_analysis)]),
    };
    assert_eq!(expected_root_analysis, actual_root_analysis)
}

#[test]
fn analysis_analyse_internal_of_2_file_in_1_folder_in_root_with_fakemetric1_should_add_files_scores() {
    // Given
    let root_name = "root_with_2_file_in_1_folder";
    let files_to_analyze = vec![
        String::from("root_with_2_file_in_1_folder/folder1/file1"),
        String::from("root_with_2_file_in_1_folder/folder1/file2"),
    ];
    let fake_file_explorer = FakeFileExplorer::_new(files_to_analyze);
    let metrics = vec![FakeMetric::new(1)];

    // When
    let actual_root_analysis = do_internal_analysis(root_name, &fake_file_explorer, &metrics);

    // Then
    let expected_metrics: Scores = vec![(String::from("fake1"), Ok(Score(1)))];
    let expected_folder_metrics: Scores = vec![(String::from("fake1"), Ok(Score(2)))];
    let expected_folder1_analysis = TopAnalysis {
        file_name: String::from("folder1"),
        metrics: expected_folder_metrics.clone(),
        folder_content: Some(vec![
            entry(file("file1", expected_metrics.clone())),
            entry(file("file2", expected_metrics.clone())),
        ]),
    };
    let expected_root_analysis = TopAnalysis {
        file_name: String::from(root_name),
        metrics: expected_folder_metrics,
        folder_content: Some(vec![entry(expected_folder1_analysis)]),
    };
    assert_eq!(expected_root_analysis, actual_root_analysis)
}

#[test]
fn analyse_with_a_composed_root_should_only_use_root_filename() {
    let root = "user/dir/root_with_1_file_in_1_folder";
    let file_to_analyze = vec![String::from("user/dir/root_with_1_file_in_1_folder/folder1/file1")];
    let fake_file_explorer = FakeFileExplorer::_new(file_to_analyze);
    let metrics = vec![FakeMetric::new(1)];

    // When
    let actual_root_analysis = do_internal_analysis(root, &fake_file_explorer, &metrics);

    // Then
    assert_eq!("root_with_1_file_in_1_folder", actual_root_analysis.file_name);
    let content = actual_root_analysis.folder_content.unwrap();
    let folder1 = content.iter().find(|(key, _)| key == "folder1").unwrap();
    assert_eq!("folder1", folder1.1.file_name);
}
