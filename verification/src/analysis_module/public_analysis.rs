//! How the analysis of a project starts: a folder with nothing in it is not
//! analysed, and the social complexity metric joins the lines count when the
//! folder is in a git repository.
use crate::metrics::lines_count::LinesCountMetric;
use crate::metrics::social_complexity::SocialComplexityMetric;
use vstd::prelude::*;

verus! {

/// A metric that the analysis of a project computes.
#[derive(Debug)]
pub enum ProjectMetric {
    LinesCount(LinesCountMetric),
    SocialComplexity(SocialComplexityMetric),
}

/// How the analysis of a folder goes on.
#[derive(Debug)]
pub enum AnalysisPlan {
    /// The folder holds nothing: the analysis stops with this warning, and
    /// the program with exit status 1.
    Stop(String),
    /// The analysis runs these metrics, once these warnings are shown.
    Run(Vec<ProjectMetric>, Vec<String>),
}

/// The warning shown for a folder that holds nothing.
pub open spec fn empty_folder_warning() -> Seq<char> {
    "WARN: Analysed folder does not contain any file"@
}

/// The warning shown for a folder outside any git repository.
pub open spec fn not_a_repository_warning() -> Seq<char> {
    "WARN: Analysed folder is not a git repository"@
}

/// The plan for analysing the folder `root`. `folder_is_empty` says whether
/// the folder lists no entry; `git_repository` is `None` when no git
/// repository holds the folder, and otherwise the folder that contains the
/// repository's `.git` folder, if it has one. The lines count is always
/// computed; the social complexity of the files of `root` is computed
/// against that folder when there is one.
pub fn plan_analysis(root: &str, folder_is_empty: bool, git_repository: Option<Option<String>>) -> (r:
    AnalysisPlan)
    ensures
        folder_is_empty ==> (r matches AnalysisPlan::Stop(w) && w@ == empty_folder_warning()),
        !folder_is_empty ==> (r matches AnalysisPlan::Run(metrics, warnings) && {
            &&& metrics@.len() == if git_repository matches Some(Some(_)) {
                2int
            } else {
                1int
            }
            &&& metrics@[0] is LinesCount
            &&& (git_repository matches Some(Some(project)) ==> (metrics@[1] matches ProjectMetric::SocialComplexity(s)
                && s.analyzed_folder_view() == root@ && s.git_repository_view() == project@))
            &&& warnings@.len() == if git_repository is None {
                1int
            } else {
                0int
            }
            &&& (git_repository is None ==> warnings@[0]@ == not_a_repository_warning())
        }),
{
    if folder_is_empty {
        return AnalysisPlan::Stop("WARN: Analysed folder does not contain any file".to_owned());
    }
    let mut metrics_to_analyze: Vec<ProjectMetric> = Vec::new();
    metrics_to_analyze.push(ProjectMetric::LinesCount(LinesCountMetric::new()));
    let mut warnings: Vec<String> = Vec::new();
    match git_repository {
        Some(Some(project)) => {
            metrics_to_analyze.push(
                ProjectMetric::SocialComplexity(SocialComplexityMetric::new(root, project.as_str())),
            );
        },
        Some(None) => {},
        None => {
            warnings.push("WARN: Analysed folder is not a git repository".to_owned());
        },
    }
    AnalysisPlan::Run(metrics_to_analyze, warnings)
}

} // verus!
