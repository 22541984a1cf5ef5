use smells::analysis_module::public_analysis::{plan_analysis, AnalysisPlan, ProjectMetric};

#[test]
fn empty_folder_stops_the_analysis() {
    match plan_analysis("/p", true, Some(Some(String::from("/p")))) {
        AnalysisPlan::Stop(warning) => {
            assert_eq!(warning, "WARN: Analysed folder does not contain any file")
        },
        _ => panic!("expected a stop"),
    }
}

#[test]
fn folder_in_a_repository_gets_both_metrics() {
    match plan_analysis("/p/src", false, Some(Some(String::from("/p")))) {
        AnalysisPlan::Run(metrics, warnings) => {
            assert_eq!(metrics.len(), 2);
            assert!(matches!(metrics[0], ProjectMetric::LinesCount(_)));
            match &metrics[1] {
                ProjectMetric::SocialComplexity(m) => assert_eq!(m.git_repository(), "/p"),
                _ => panic!("expected social complexity"),
            }
            assert!(warnings.is_empty());
        },
        _ => panic!("expected a run"),
    }
}

#[test]
fn folder_outside_repositories_gets_lines_count_and_a_warning() {
    match plan_analysis("/p", false, None) {
        AnalysisPlan::Run(metrics, warnings) => {
            assert_eq!(metrics.len(), 1);
            assert_eq!(warnings, vec![String::from("WARN: Analysed folder is not a git repository")]);
        },
        _ => panic!("expected a run"),
    }
}

#[test]
fn repository_without_parent_folder_gets_lines_count_only() {
    match plan_analysis("/p", false, Some(None)) {
        AnalysisPlan::Run(metrics, warnings) => {
            assert_eq!(metrics.len(), 1);
            assert!(warnings.is_empty());
        },
        _ => panic!("expected a run"),
    }
}
