//! The metrics that an analysis of a project computes, gathered in one value
//! type so that one analysis can carry all of them.
use crate::analysis_module::analysis::{
    aggregate_all, law_summary_per_metric, metrics_summary, values_at,
};
use crate::metrics::lines_count::{
    LinesCountValue, aggregate_lines, folder_lines_count, lemma_aggregate_all_lines,
};
use crate::metrics::metric::{
    AnalysisError, IMetricValue, IMetricValueClone, MetricScoreType, MetricValueType, ValueModel,
};
use crate::metrics::social_complexity::{
    SocialComplexityValue, aggregate_authors, append_unique, folder_authors,
    law_joined_authors_are_the_union, lemma_aggregate_all_authors,
};
use vstd::prelude::*;

verus! {

/// The value of one of the project's metrics on an analysed item.
#[derive(Debug)]
pub enum ProjectMetricValue {
    LinesCount(LinesCountValue),
    SocialComplexity(SocialComplexityValue),
}

/// The mathematical content of a `ProjectMetricValue`.
pub enum ProjectMetricModel {
    LinesCount(Result<u64, Seq<char>>),
    SocialComplexity(Result<Seq<Seq<char>>, Seq<char>>),
}

impl IMetricValueClone for ProjectMetricValue {
    type Model = ProjectMetricModel;

    open spec fn model(&self) -> ProjectMetricModel {
        match self {
            ProjectMetricValue::LinesCount(v) => ProjectMetricModel::LinesCount(v.model()),
            ProjectMetricValue::SocialComplexity(v) => ProjectMetricModel::SocialComplexity(
                v.model(),
            ),
        }
    }

    fn clone_box(&self) -> (r: Self) {
        match self {
            ProjectMetricValue::LinesCount(v) => ProjectMetricValue::LinesCount(v.clone_box()),
            ProjectMetricValue::SocialComplexity(v) => ProjectMetricValue::SocialComplexity(
                v.clone_box(),
            ),
        }
    }
}

impl IMetricValue for ProjectMetricValue {
    open spec fn key_of(m: ProjectMetricModel) -> Seq<char> {
        match m {
            ProjectMetricModel::LinesCount(x) => LinesCountValue::key_of(x),
            ProjectMetricModel::SocialComplexity(x) => SocialComplexityValue::key_of(x),
        }
    }

    open spec fn score_of(m: ProjectMetricModel) -> Result<u64, Seq<char>> {
        match m {
            ProjectMetricModel::LinesCount(x) => LinesCountValue::score_of(x),
            ProjectMetricModel::SocialComplexity(x) => SocialComplexityValue::score_of(x),
        }
    }

    open spec fn value_of(m: ProjectMetricModel) -> Result<ValueModel, Seq<char>> {
        match m {
            ProjectMetricModel::LinesCount(x) => LinesCountValue::value_of(x),
            ProjectMetricModel::SocialComplexity(x) => SocialComplexityValue::value_of(x),
        }
    }

    /// Each metric aggregates the value of the other item as its own type
    /// does.
    open spec fn aggregated(m: ProjectMetricModel, other: ProjectMetricModel) -> ProjectMetricModel {
        match m {
            ProjectMetricModel::LinesCount(x) => ProjectMetricModel::LinesCount(
                aggregate_lines(x, Self::value_of(other)),
            ),
            ProjectMetricModel::SocialComplexity(x) => ProjectMetricModel::SocialComplexity(
                aggregate_authors(x, Self::value_of(other)),
            ),
        }
    }

    fn get_key(&self) -> (r: &str) {
        match self {
            ProjectMetricValue::LinesCount(v) => v.get_key(),
            ProjectMetricValue::SocialComplexity(v) => v.get_key(),
        }
    }

    fn get_score(&self) -> (r: Result<MetricScoreType, AnalysisError>) {
        match self {
            ProjectMetricValue::LinesCount(v) => v.get_score(),
            ProjectMetricValue::SocialComplexity(v) => v.get_score(),
        }
    }

    fn get_value(&self) -> (r: Result<MetricValueType, AnalysisError>) {
        match self {
            ProjectMetricValue::LinesCount(v) => v.get_value(),
            ProjectMetricValue::SocialComplexity(v) => v.get_value(),
        }
    }

    proof fn lemma_aggregated_keeps_key(m: ProjectMetricModel, other: ProjectMetricModel) {
    }

    fn aggregate(&self, other: Self) -> (r: Self) {
        let other_value = other.get_value();
        match self {
            ProjectMetricValue::LinesCount(v) => ProjectMetricValue::LinesCount(
                v.aggregate_with_value(other_value),
            ),
            ProjectMetricValue::SocialComplexity(v) => ProjectMetricValue::SocialComplexity(
                v.aggregate_with_value(other_value),
            ),
        }
    }
}

/// Two lines counts aggregate as the counts of a folder of two files do:
/// known counts add (modulo 2^64), an error gives way to a known count, and
/// two errors give "Analysis error".
pub proof fn law_project_lines_counts_add(x: Result<u64, Seq<char>>, y: Result<u64, Seq<char>>)
    ensures
        ProjectMetricValue::aggregated(
            ProjectMetricModel::LinesCount(x),
            ProjectMetricModel::LinesCount(y),
        ) == ProjectMetricModel::LinesCount(
            match (x, y) {
                (Ok(a), Ok(b)) => Ok(a.wrapping_add(b)),
                (Ok(a), Err(_)) => Ok(a),
                (Err(_), Ok(b)) => Ok(b),
                (Err(_), Err(_)) => Err("Analysis error"@),
            },
        ),
{
}

/// Two lists of authors aggregate into one list that begins with the first,
/// holds every author of either and no other, and repeats no author when
/// the first repeats none; an error gives way to a known list, and two
/// errors give "Analysis error".
pub proof fn law_project_authors_join(
    x: Result<Seq<Seq<char>>, Seq<char>>,
    y: Result<Seq<Seq<char>>, Seq<char>>,
)
    ensures
        ProjectMetricValue::aggregated(
            ProjectMetricModel::SocialComplexity(x),
            ProjectMetricModel::SocialComplexity(y),
        ) matches ProjectMetricModel::SocialComplexity(r) && match (x, y) {
            (Ok(a), Ok(b)) => r matches Ok(c) && a.is_prefix_of(c) && c.to_set() == a.to_set().union(
                b.to_set(),
            ) && (a.no_duplicates() ==> c.no_duplicates()),
            (Ok(a), Err(_)) => r == Ok::<Seq<Seq<char>>, Seq<char>>(a),
            (Err(_), Ok(b)) => r == Ok::<Seq<Seq<char>>, Seq<char>>(b),
            (Err(_), Err(_)) => r == Err::<Seq<Seq<char>>, Seq<char>>("Analysis error"@),
        },
{
    if let (Ok(a), Ok(b)) = (x, y) {
        law_joined_authors_are_the_union(a, b);
    }
}

/// The lines counts of project values (an error for another metric).
pub open spec fn line_counts(vs: Seq<ProjectMetricModel>) -> Seq<Result<u64, Seq<char>>> {
    vs.map_values(
        |m: ProjectMetricModel|
            match m {
                ProjectMetricModel::LinesCount(x) => x,
                ProjectMetricModel::SocialComplexity(_) => Err("Analysis error"@),
            },
    )
}

/// The author lists of project values (an error for another metric).
pub open spec fn author_lists(vs: Seq<ProjectMetricModel>) -> Seq<Result<Seq<Seq<char>>, Seq<char>>> {
    vs.map_values(
        |m: ProjectMetricModel|
            match m {
                ProjectMetricModel::SocialComplexity(x) => x,
                ProjectMetricModel::LinesCount(_) => Err("Analysis error"@),
            },
    )
}

proof fn lemma_aggregate_all_project_lines(vs: Seq<ProjectMetricModel>)
    requires
        vs.len() > 0,
        forall|i: int| 0 <= i < vs.len() ==> (#[trigger] vs[i]) is LinesCount,
    ensures
        aggregate_all::<ProjectMetricValue>(vs) == ProjectMetricModel::LinesCount(
            aggregate_all::<LinesCountValue>(line_counts(vs)),
        ),
    decreases vs.len(),
{
    if vs.len() > 1 {
        let init = vs.drop_last();
        assert forall|i: int| 0 <= i < init.len() implies (#[trigger] init[i]) is LinesCount by {
            assert(init[i] == vs[i]);
        }
        lemma_aggregate_all_project_lines(init);
        assert(line_counts(vs).drop_last() =~= line_counts(init));
        assert(vs[vs.len() - 1] is LinesCount);
    } else {
        assert(vs[0] is LinesCount);
    }
}

proof fn lemma_aggregate_all_project_authors(vs: Seq<ProjectMetricModel>)
    requires
        vs.len() > 0,
        forall|i: int| 0 <= i < vs.len() ==> (#[trigger] vs[i]) is SocialComplexity,
    ensures
        aggregate_all::<ProjectMetricValue>(vs) == ProjectMetricModel::SocialComplexity(
            aggregate_all::<SocialComplexityValue>(author_lists(vs)),
        ),
    decreases vs.len(),
{
    if vs.len() > 1 {
        let init = vs.drop_last();
        assert forall|i: int| 0 <= i < init.len() implies (#[trigger] init[i]) is SocialComplexity by {
            assert(init[i] == vs[i]);
        }
        lemma_aggregate_all_project_authors(init);
        assert(author_lists(vs).drop_last() =~= author_lists(init));
        assert(vs[vs.len() - 1] is SocialComplexity);
    } else {
        assert(vs[0] is SocialComplexity);
    }
}

/// When every file has one value of each of the project's metrics named
/// `keys` (no name twice), in that order, a folder's lines count is the sum
/// of its files' known counts (errors give way to any known count), and its
/// authors are the authors of its files, each once, in the order they first
/// appear (errors give way to any known list), provided no file's list
/// repeats an author.
pub proof fn law_project_folder_summary(
    files: Seq<Seq<ProjectMetricModel>>,
    keys: Seq<Seq<char>>,
)
    requires
        files.len() > 0,
        keys.no_duplicates(),
        forall|i: int| 0 <= i < files.len() ==> (#[trigger] files[i]).len() == keys.len(),
        forall|i: int, j: int|
            0 <= i < files.len() && 0 <= j < keys.len() ==> ProjectMetricValue::key_of(
                #[trigger] files[i][j],
            ) == keys[j],
        forall|i: int, j: int|
            0 <= i < files.len() && 0 <= j < keys.len() ==> (#[trigger] files[i][j] matches
                ProjectMetricModel::SocialComplexity(Ok(a)) ==> a.no_duplicates()),
    ensures
        metrics_summary::<ProjectMetricValue>(files).len() == keys.len(),
        forall|j: int|
            0 <= j < keys.len() ==> #[trigger] metrics_summary::<ProjectMetricValue>(files)[j]
                == match files[0][j] {
                ProjectMetricModel::LinesCount(_) => ProjectMetricModel::LinesCount(
                    folder_lines_count(line_counts(values_at(files, j))),
                ),
                ProjectMetricModel::SocialComplexity(_) => ProjectMetricModel::SocialComplexity(
                    folder_authors(author_lists(values_at(files, j))),
                ),
            },
{
    assert forall|m: ProjectMetricModel, o: ProjectMetricModel| #[trigger] ProjectMetricValue::key_of(
        ProjectMetricValue::aggregated(m, o),
    ) == ProjectMetricValue::key_of(m) by {
        ProjectMetricValue::lemma_aggregated_keeps_key(m, o);
    }
    law_summary_per_metric::<ProjectMetricValue>(files, keys);
    reveal_strlit("lines_count");
    reveal_strlit("social_complexity");
    assert("lines_count"@ != "social_complexity"@) by {
        assert("lines_count"@.len() != "social_complexity"@.len());
    }
    assert forall|j: int| 0 <= j < keys.len() implies #[trigger] metrics_summary::<ProjectMetricValue>(
        files,
    )[j] == match files[0][j] {
        ProjectMetricModel::LinesCount(_) => ProjectMetricModel::LinesCount(
            folder_lines_count(line_counts(values_at(files, j))),
        ),
        ProjectMetricModel::SocialComplexity(_) => ProjectMetricModel::SocialComplexity(
            folder_authors(author_lists(values_at(files, j))),
        ),
    } by {
        let vs = values_at(files, j);
        assert(vs[0] == files[0][j]);
        match files[0][j] {
            ProjectMetricModel::LinesCount(_) => {
                assert forall|i: int| 0 <= i < vs.len() implies (#[trigger] vs[i]) is LinesCount by {
                    assert(vs[i] == files[i][j]);
                    assert(ProjectMetricValue::key_of(files[i][j]) == keys[j]);
                    assert(ProjectMetricValue::key_of(files[0][j]) == keys[j]);
                }
                lemma_aggregate_all_project_lines(vs);
                lemma_aggregate_all_lines(line_counts(vs));
            },
            ProjectMetricModel::SocialComplexity(_) => {
                assert forall|i: int| 0 <= i < vs.len() implies (#[trigger] vs[i]) is SocialComplexity by {
                    assert(vs[i] == files[i][j]);
                    assert(ProjectMetricValue::key_of(files[i][j]) == keys[j]);
                    assert(ProjectMetricValue::key_of(files[0][j]) == keys[j]);
                }
                lemma_aggregate_all_project_authors(vs);
                let al = author_lists(vs);
                assert forall|i: int| 0 <= i < al.len() implies (#[trigger] al[i] matches Ok(a)
                    ==> a.no_duplicates()) by {
                    assert(vs[i] == files[i][j]);
                }
                lemma_aggregate_all_authors(al);
            },
        }
    }
}

} // verus!
