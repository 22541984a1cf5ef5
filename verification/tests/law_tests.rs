use smells::analysis_module::analysis::{
    build_hierarchical_analysis_structure, combine_metrics, do_internal_analysis, FileAnalysis,
    HierarchicalAnalysis, TopAnalysis,
};
use smells::paths::{join_path, path_components_of};
use smells::data_sources::file_explorer::FakeFileExplorer;
use smells::metrics::fake_metrics::FakeMetric;
use smells::metrics::lines_count::LinesCountValue;
use smells::metrics::metric::{IMetricValue, MetricScoreType, MetricValueType};
use smells::metrics::social_complexity::SocialComplexityValue;

fn names(v: &[&str]) -> Vec<String> {
    v.iter().map(|s| s.to_string()).collect()
}

fn child<'a>(t: &'a TopAnalysis, key: &str) -> &'a TopAnalysis {
    &t.folder_content.as_ref().unwrap().iter().find(|(k, _)| k == key).unwrap().1
}

fn score(t: &TopAnalysis) -> u64 {
    match &t.metrics[0].1 {
        Ok(MetricScoreType::Score(n)) => *n,
        Err(e) => panic!("{}", e),
    }
}

#[test]
fn every_folder_summarises_the_files_below_it() {
    let explorer = FakeFileExplorer::_new(names(&[
        "p/root/a/x",
        "p/root/b/z",
        "p/root/a/c/y",
        "p/root/a/c/w",
    ]));
    let analysis = do_internal_analysis("p/root", &explorer, &vec![FakeMetric::new(5)]);
    assert_eq!(analysis.file_name, "root");
    assert_eq!(score(&analysis), 20);
    let a = child(&analysis, "a");
    assert_eq!(score(a), 15);
    assert_eq!(score(child(a, "c")), 10);
    assert_eq!(score(child(child(a, "c"), "y")), 5);
    assert_eq!(score(child(&analysis, "b")), 5);
}

#[test]
fn files_show_their_own_values_and_no_content() {
    let explorer = FakeFileExplorer::_new(names(&["root/a/x", "root/a/c/y", "root/b"]));
    let analysis = do_internal_analysis("root", &explorer, &vec![FakeMetric::new(7)]);
    let x = child(child(&analysis, "a"), "x");
    assert!(x.folder_content.is_none());
    assert_eq!(score(x), 7);
    let b = child(&analysis, "b");
    assert!(b.folder_content.is_none());
    assert_eq!(score(b), 7);
    assert!(child(child(&analysis, "a"), "c").folder_content.is_some());
}

#[test]
fn files_outside_the_root_are_left_out() {
    let explorer = FakeFileExplorer::_new(names(&["p/root/a", "q/other/b"]));
    let analysis = do_internal_analysis("p/root", &explorer, &vec![FakeMetric::new(1)]);
    assert_eq!(score(&analysis), 1);
    assert_eq!(analysis.folder_content.as_ref().unwrap().len(), 1);
}

#[test]
fn folders_list_entries_sorted_and_named_as_their_item() {
    let explorer = FakeFileExplorer::_new(names(&["r/zeta", "r/alpha/b", "r/mid", "r/alpha/a"]));
    let analysis = do_internal_analysis("r", &explorer, &vec![FakeMetric::new(1)]);
    let content = analysis.folder_content.as_ref().unwrap();
    let keys: Vec<&str> = content.iter().map(|(k, _)| k.as_str()).collect();
    assert_eq!(keys, vec!["alpha", "mid", "zeta"]);
    for (key, item) in content {
        assert_eq!(key, &item.file_name);
    }
    let inner: Vec<&str> =
        child(&analysis, "alpha").folder_content.as_ref().unwrap().iter().map(|(k, _)| k.as_str()).collect();
    assert_eq!(inner, vec!["a", "b"]);
}

#[test]
fn folder_lines_count_is_the_total_of_known_counts() {
    let files = vec![
        vec![LinesCountValue { line_count: Err(String::from("unreadable")) }],
        vec![LinesCountValue { line_count: Ok(3) }],
        vec![LinesCountValue { line_count: Ok(4) }],
    ];
    let mut summary: Vec<LinesCountValue> = vec![];
    for file in files {
        summary = combine_metrics(summary, file);
    }
    assert_eq!(summary.len(), 1);
    assert_eq!(summary[0].get_score(), Ok(MetricScoreType::Score(7)));
}

#[test]
fn folder_authors_are_the_authors_of_its_files_once_each() {
    let files = vec![
        vec![SocialComplexityValue { authors: Ok(names(&["bob", "ann"])) }],
        vec![SocialComplexityValue { authors: Err(String::from("Analysis Error")) }],
        vec![SocialComplexityValue { authors: Ok(names(&["cid", "bob"])) }],
    ];
    let mut summary: Vec<SocialComplexityValue> = vec![];
    for file in files {
        summary = combine_metrics(summary, file);
    }
    assert_eq!(summary.len(), 1);
    assert_eq!(
        summary[0].get_value(),
        Ok(MetricValueType::Authors(names(&["bob", "ann", "cid"])))
    );
}

#[test]
fn root_written_with_a_trailing_slash_keeps_its_files() {
    let explorer = FakeFileExplorer::_new(names(&["root/a", "root/b/c", "rootx/d"]));
    let analysis = do_internal_analysis("root/", &explorer, &vec![FakeMetric::new(2)]);
    assert_eq!(analysis.file_name, "root");
    assert_eq!(score(&analysis), 4);
    assert_eq!(score(child(&analysis, "a")), 2);
    assert_eq!(score(child(child(&analysis, "b"), "c")), 2);
    assert_eq!(analysis.folder_content.as_ref().unwrap().len(), 2);
}

#[test]
fn root_is_matched_by_components_not_by_text() {
    let explorer = FakeFileExplorer::_new(names(&["./root//a", "root/./b", "rooted/c"]));
    let analysis = do_internal_analysis("root", &explorer, &vec![FakeMetric::new(1)]);
    assert_eq!(score(&analysis), 1);
    assert_eq!(score(child(&analysis, "b")), 1);
}

#[test]
fn each_metric_of_a_folder_sums_its_files_under_its_name() {
    let explorer = FakeFileExplorer::_new(names(&["r/d/x", "r/d/y", "r/z"]));
    let analysis =
        do_internal_analysis("r", &explorer, &vec![FakeMetric::new(4), FakeMetric::new(10)]);
    let d = child(&analysis, "d");
    assert_eq!(
        d.metrics,
        vec![(String::from("fake10"), Ok(MetricScoreType::Score(20))), (String::from("fake4"), Ok(MetricScoreType::Score(8)))]
    );
    assert_eq!(
        analysis.metrics,
        vec![(String::from("fake10"), Ok(MetricScoreType::Score(30))), (String::from("fake4"), Ok(MetricScoreType::Score(12)))]
    );
}

#[test]
fn joined_authors_are_the_union_either_way_round() {
    let a = SocialComplexityValue { authors: Ok(names(&["ann", "bob"])) };
    let b = SocialComplexityValue { authors: Ok(names(&["cid", "ann", "dan"])) };
    let ab = a.aggregate(SocialComplexityValue { authors: Ok(names(&["cid", "ann", "dan"])) });
    let ba = b.aggregate(SocialComplexityValue { authors: Ok(names(&["ann", "bob"])) });
    assert_eq!(ab.get_value(), Ok(MetricValueType::Authors(names(&["ann", "bob", "cid", "dan"]))));
    assert_eq!(ba.get_value(), Ok(MetricValueType::Authors(names(&["cid", "ann", "dan", "bob"]))));
    assert_eq!(ab.get_score(), ba.get_score());
}

#[test]
fn a_path_cut_into_components_and_joined_again_keeps_its_components() {
    for p in ["a/b/c", "a//b/./c/", "file", "a/../b", "/usr/lib", "/", "./a/b", "", "../x"] {
        let components = path_components_of(p);
        let joined = join_path(&components);
        assert_eq!(path_components_of(&joined), components);
    }
}

#[test]
fn with_no_files_the_root_analysis_comes_back_unchanged() {
    let root: HierarchicalAnalysis<LinesCountValue> = HierarchicalAnalysis {
        file_name: String::from("root"),
        metrics: vec![LinesCountValue { line_count: Ok(3) }],
        folder_content: Some(vec![]),
    };
    let files: Vec<FileAnalysis<LinesCountValue>> = vec![];
    let r = build_hierarchical_analysis_structure(root, &files);
    assert_eq!(r.file_name, "root");
    assert_eq!(r.metrics.len(), 1);
    assert_eq!(r.metrics[0].get_score(), Ok(MetricScoreType::Score(3)));
    assert_eq!(r.folder_content.map(|c| c.len()), Some(0));
}
