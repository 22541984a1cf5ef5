use smells::metrics::line_count;
use smells::metrics::lines_count::{count_lines, LinesCountMetric, LinesCountValue};
use smells::metrics::metric::{
    IMetricValue, IMetricValueClone, MetricScoreType, MetricValueType, OptionError, ResultError,
    SmellsError,
};
use smells::metrics::project_metrics::ProjectMetricValue;
use smells::metrics::social_complexity::{
    collect_authors, get_relative_file_path, GitReport, SocialComplexityMetric,
    SocialComplexityValue,
};
use smells::metrics::fake_metrics::{BrokenMetric, FakeMetric};
use smells::metrics::metric::IMetric;

fn names(v: &[&str]) -> Vec<String> {
    v.iter().map(|s| s.to_string()).collect()
}

#[test]
fn count_lines_of_empty_text_is_zero() {
    assert_eq!(count_lines(""), 0);
}

#[test]
fn count_lines_of_one_line() {
    assert_eq!(count_lines("line1"), 1);
}

#[test]
fn count_lines_of_two_and_three_lines() {
    assert_eq!(count_lines("line1\nline2"), 2);
    assert_eq!(count_lines("line1\nline2\nline3"), 3);
}

#[test]
fn count_lines_of_line_feeds_only() {
    assert_eq!(count_lines("\n"), 1);
    assert_eq!(count_lines("\n\n\n"), 3);
    assert_eq!(count_lines("a\nb\n"), 2);
}

#[test]
fn lines_count_metric_analyses_content() {
    let metric = LinesCountMetric::new();
    let value = metric.analyse_content(Some("line1\nline2\nline3")).unwrap();
    assert_eq!("lines_count", value.get_key());
    assert_eq!(Ok(MetricValueType::Number(3)), value.get_value());
    assert_eq!(Ok(MetricScoreType::Score(3)), value.get_score());
    let unreadable = metric.analyse_content(None).unwrap();
    assert_eq!(Err(String::from("Analysis error")), unreadable.get_score());
}

fn aggregation_case(
    lines_count: Result<u64, String>,
    other_lines_count: Result<u64, String>,
    expected: Result<u64, String>,
) {
    let line_count_value = LinesCountValue { line_count: lines_count };
    let other_lines_count_value = LinesCountValue { line_count: other_lines_count };
    let aggregated = line_count_value.aggregate(other_lines_count_value);
    let expected_for_get_value = match expected.clone() {
        Ok(value) => Ok(MetricValueType::Number(value)),
        Err(_) => Err(String::from("Analysis error")),
    };
    assert_eq!(expected_for_get_value, aggregated.get_value());
    let expected_for_get_score = match expected {
        Ok(score) => Ok(MetricScoreType::Score(score)),
        Err(_) => Err(String::from("Analysis error")),
    };
    assert_eq!(expected_for_get_score, aggregated.get_score());
}

#[test]
fn test_line_count_metric_value_aggregation_of_two_counts() {
    aggregation_case(Ok(2), Ok(2), Ok(4));
}

#[test]
fn test_line_count_metric_value_aggregation_of_error_and_count() {
    aggregation_case(Err(String::from("Analysis error")), Ok(2), Ok(2));
}

#[test]
fn test_line_count_metric_value_aggregation_of_count_and_error() {
    aggregation_case(Ok(2), Err(String::from("Analysis error")), Ok(2));
}

#[test]
fn test_line_count_metric_value_aggregation_of_two_errors() {
    aggregation_case(
        Err(String::from("Analysis error")),
        Err(String::from("Analysis error")),
        Err(String::from("Analysis error")),
    );
}

#[test]
fn lines_count_value_aggregates_a_list_of_authors_as_zero() {
    let value = LinesCountValue { line_count: Ok(7) };
    let aggregated = value.aggregate_with_value(Ok(MetricValueType::Authors(names(&["ann"]))));
    assert_eq!(Ok(MetricValueType::Number(0)), aggregated.get_value());
}

#[test]
fn lines_count_sum_wraps_around() {
    let value = LinesCountValue { line_count: Ok(u64::MAX) };
    let aggregated = value.aggregate(LinesCountValue { line_count: Ok(2) });
    assert_eq!(Ok(MetricValueType::Number(1)), aggregated.get_value());
}

#[test]
fn first_lines_count_score_keeps_error_text() {
    let value = line_count::LinesCountValue { line_count: Err(String::from("disk on fire")) };
    assert_eq!(Err(String::from("disk on fire")), value.get_score());
    assert_eq!(Err(String::from("disk on fire")), value.get_value());
    let zero = value.create_clone_with_value_zero();
    assert_eq!(Ok(MetricScoreType::Score(0)), zero.get_score());
    let metric = line_count::LinesCountMetric::new();
    assert_eq!(Ok(MetricScoreType::Score(2)), metric.analyse_content(Some("a\nb")).get_score());
    assert_eq!(
        Err(String::from("Analysis error")),
        metric.analyse_content(None).get_score()
    );
    let sum = line_count::LinesCountValue { line_count: Ok(3) }
        .aggregate(line_count::LinesCountValue { line_count: Ok(4) });
    assert_eq!(Ok(MetricScoreType::Score(7)), sum.get_score());
}

#[test]
fn metric_values_add() {
    assert_eq!(
        MetricValueType::Number(3).add(MetricValueType::Number(4)),
        MetricValueType::Number(7)
    );
    assert_eq!(
        MetricValueType::Authors(names(&["a"])).add(MetricValueType::Authors(names(&["b", "a"]))),
        MetricValueType::Authors(names(&["a", "b", "a"]))
    );
    assert_eq!(
        MetricValueType::Number(12).add(MetricValueType::Authors(names(&["a"]))),
        MetricValueType::Authors(names(&["a", "12"]))
    );
    assert_eq!(
        MetricValueType::Authors(names(&["a"])).add(MetricValueType::Number(0)),
        MetricValueType::Authors(names(&["0", "a"]))
    );
}

#[test]
fn errors_carry_their_messages() {
    assert_eq!(ResultError::new().description(), "Result is Error");
    assert_eq!(OptionError::new().description(), "Option is None");
    match SmellsError::from_git_error_message("no repo") {
        SmellsError::GitError(text) => assert_eq!(
            text,
            "Error while retrieving social complexity git objects: \nno repo"
        ),
        _ => panic!("expected a git error"),
    }
    match SmellsError::from_git_error(&git2::Error::from_str("no such object")) {
        SmellsError::GitError(text) => assert_eq!(
            text,
            "Error while retrieving social complexity git objects: \nno such object"
        ),
        _ => panic!("expected a git error"),
    }
}

#[test]
fn relative_file_path_strips_the_repository() {
    assert_eq!(get_relative_file_path("/repo/src/a.rs", "/repo").unwrap(), "src/a.rs");
    assert_eq!(get_relative_file_path("/repo//src/./a.rs", "/repo/").unwrap(), "src/a.rs");
    assert!(get_relative_file_path("/other/a.rs", "/repo").is_err());
    assert!(get_relative_file_path("/repository/a.rs", "/repo").is_err());
}

#[test]
fn authors_are_collected_once_each_in_order() {
    let authors = collect_authors(vec![
        Some(String::from("bob")),
        None,
        Some(String::from("ann")),
        Some(String::from("bob")),
    ]);
    assert_eq!(authors, Some(names(&["bob", "ann"])));
    assert_eq!(collect_authors(vec![None, None]), None);
}

#[test]
fn social_complexity_value_from_git_reports() {
    let metric = SocialComplexityMetric::new("/repo/src", "/repo");
    assert_eq!(metric.git_repository(), "/repo");
    assert_eq!(metric.relative_path("/repo/src/a.rs").unwrap(), "src/a.rs");
    assert!(metric.value_from_report(GitReport::NotVersioned).is_none());
    assert!(metric.value_from_report(GitReport::Authors(Ok(None))).is_none());
    let outside = metric.value_from_report(GitReport::OutsideRepository).unwrap();
    assert_eq!(outside.get_score(), Err(String::from("Analysis Error")));
    let failed = metric
        .value_from_report(GitReport::Authors(Err(SmellsError::from_git_error_message("x"))))
        .unwrap();
    assert_eq!(failed.get_value(), Err(String::from("Analysis Error")));
    let found = metric
        .value_from_report(GitReport::Authors(Ok(Some(names(&["ann", "bob"])))))
        .unwrap();
    assert_eq!(found.get_key(), "social_complexity");
    assert_eq!(found.get_score(), Ok(MetricScoreType::Score(2)));
}

#[test]
fn social_complexity_values_join_authors_without_repeating_them() {
    let a = SocialComplexityValue { authors: Ok(names(&["ann", "bob"])) };
    let b = SocialComplexityValue { authors: Ok(names(&["bob", "cid"])) };
    let joined = a.aggregate(b);
    assert_eq!(joined.get_value(), Ok(MetricValueType::Authors(names(&["ann", "bob", "cid"]))));
    assert_eq!(joined.get_score(), Ok(MetricScoreType::Score(3)));
    let err = SocialComplexityValue { authors: Err(String::from("e")) };
    let kept = err.aggregate(SocialComplexityValue { authors: Ok(names(&["x"])) });
    assert_eq!(kept.get_value(), Ok(MetricValueType::Authors(names(&["x"]))));
    let both = SocialComplexityValue { authors: Err(String::from("e")) }
        .aggregate(SocialComplexityValue { authors: Err(String::from("f")) });
    assert_eq!(both.get_score(), Err(String::from("Analysis error")));
}

#[test]
fn project_metric_values_dispatch_to_their_metric() {
    let lines = ProjectMetricValue::LinesCount(LinesCountValue { line_count: Ok(4) });
    let sum = lines.aggregate(ProjectMetricValue::LinesCount(LinesCountValue { line_count: Ok(6) }));
    assert_eq!(sum.get_key(), "lines_count");
    assert_eq!(sum.get_score(), Ok(MetricScoreType::Score(10)));
    let social = ProjectMetricValue::SocialComplexity(SocialComplexityValue {
        authors: Ok(names(&["ann"])),
    });
    let copy = social.clone_box();
    let joined = social.aggregate(copy);
    assert_eq!(joined.get_key(), "social_complexity");
    assert_eq!(joined.get_score(), Ok(MetricScoreType::Score(1)));
}

#[test]
fn fake_metrics_give_their_values() {
    let metric = FakeMetric::new(42);
    let value = metric.analyse("any").unwrap();
    assert_eq!(value.get_key(), "fake42");
    assert_eq!(value.get_score(), Ok(MetricScoreType::Score(42)));
    let broken = BrokenMetric::new().analyse("any").unwrap();
    assert_eq!(broken.get_key(), "broken");
    assert_eq!(broken.get_value(), Err(String::from("Analysis error")));
}

#[test]
fn head_blob_spec_uses_forward_slashes() {
    assert_eq!(smells::metrics::social_complexity::head_blob_spec("src\\a\\b.rs"), "HEAD:src/a/b.rs");
    assert_eq!(smells::metrics::social_complexity::head_blob_spec("x.rs"), "HEAD:x.rs");
}
