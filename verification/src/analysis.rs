//! The analysis of a folder with optional scores: the files found are placed
//! in the folder tree by their paths and every folder summarises its content.
//! Scores are held as optional results, and every file found must have a
//! file name.
use crate::analysis_module::analysis;
use crate::analysis_module::analysis::{
    FileAnalysis, TNode, analyse_all_files, analysed_from, analysis_model,
    build_analysis_from_file_analyses, file_analyses_view, reverse_vec, top_view, top_entries_view,
};
use crate::paths::{path_file_name, path_file_name_of};
use crate::data_sources::file_explorer::IFileExplorer;
use crate::metrics::metric::{
    AnalysisError, IMetric, IMetricValue, IMetricValueClone, MetricScoreType, score_view,
};
use vstd::prelude::*;

verus! {

/// An analysed item with the score of each metric by metric name; a folder
/// maps the file names of its entries to their analyses.
#[derive(Debug, PartialEq)]
pub struct TopAnalysis {
    pub file_name: String,
    pub metrics: Vec<(String, Option<Result<MetricScoreType, AnalysisError>>)>,
    pub folder_content: Option<Vec<(String, TopAnalysis)>>,
}

/// The mathematical content of a `TopAnalysis`.
pub struct FlatNode {
    pub name: Seq<char>,
    pub metrics: Seq<(Seq<char>, Option<Result<u64, Seq<char>>>)>,
    pub content: Option<Seq<(Seq<char>, FlatNode)>>,
}

/// A score that may be missing, with its text as a character sequence.
pub open spec fn optional_score_view(r: Option<Result<MetricScoreType, AnalysisError>>) -> Option<
    Result<u64, Seq<char>>,
> {
    match r {
        Some(s) => Some(score_view(s)),
        None => None,
    }
}

/// The metric scores of a `TopAnalysis`, with text as character sequences.
pub open spec fn optional_scores_view(
    s: Seq<(String, Option<Result<MetricScoreType, AnalysisError>>)>,
) -> Seq<(Seq<char>, Option<Result<u64, Seq<char>>>)> {
    s.map_values(
        |e: (String, Option<Result<MetricScoreType, AnalysisError>>)|
            (e.0@, optional_score_view(e.1)),
    )
}

pub open spec fn flat_view(t: TopAnalysis) -> FlatNode
    decreases t,
{
    FlatNode {
        name: t.file_name@,
        metrics: optional_scores_view(t.metrics@),
        content: match t.folder_content {
            None => None,
            Some(v) => Some(flat_entries_view(v@)),
        },
    }
}

pub open spec fn flat_entries_view(s: Seq<(String, TopAnalysis)>) -> Seq<(Seq<char>, FlatNode)>
    decreases s,
{
    if s.len() == 0 {
        Seq::empty()
    } else {
        flat_entries_view(s.drop_last()).push((s.last().0@, flat_view(s.last().1)))
    }
}

/// The flat form of an analysis: the same tree, each score made optional.
pub open spec fn flat_of(t: TNode) -> FlatNode
    decreases t,
{
    FlatNode {
        name: t.name,
        metrics: t.metrics.map_values(
            |e: (Seq<char>, Result<u64, Seq<char>>)| (e.0, Some(e.1)),
        ),
        content: match t.content {
            None => None,
            Some(c) => Some(flat_entries_of(c)),
        },
    }
}

pub open spec fn flat_entries_of(c: Seq<(Seq<char>, TNode)>) -> Seq<(Seq<char>, FlatNode)>
    decreases c,
{
    if c.len() == 0 {
        Seq::empty()
    } else {
        flat_entries_of(c.drop_last()).push((c.last().0, flat_of(c.last().1)))
    }
}

/// The analysis of the folder `root` from the analyses of its files, as
/// `analysis_model` says (the folder named by its file name), with optional
/// scores.
pub open spec fn flat_analysis_model<V: IMetricValue>(
    root: Seq<char>,
    fas: Seq<(Seq<char>, Seq<V::Model>)>,
) -> FlatNode {
    flat_of(analysis_model::<V>(root, fas))
}

/// Whether the path of every file analysis has a file name.
pub open spec fn all_named<M>(fas: Seq<(Seq<char>, Seq<M>)>) -> bool {
    forall|i: int| 0 <= i < fas.len() ==> (#[trigger] path_file_name(fas[i].0)) is Some
}

proof fn lemma_top_entries_view_push(s: Seq<(String, analysis::TopAnalysis)>, i: int)
    requires
        0 <= i < s.len(),
    ensures
        top_entries_view(s.take(i + 1)) == top_entries_view(s.take(i)).push(
            (s[i].0@, top_view(s[i].1)),
        ),
{
    assert(s.take(i + 1).drop_last() =~= s.take(i));
}

/// The flat form of an analysis, as `flat_of` says.
pub fn to_flat_analysis(t: analysis::TopAnalysis) -> (r: TopAnalysis)
    ensures
        flat_view(r) == flat_of(top_view(t)),
    decreases t,
{
    let ghost tv = top_view(t);
    let ghost h = t;
    let mut metrics: Vec<(String, Option<Result<MetricScoreType, AnalysisError>>)> = Vec::new();
    let mut rest_metrics = reverse_vec(t.metrics);
    let ghost m = h.metrics@;
    proof {
        assert(m.skip(0) =~= m);
        assert(m.take(0) =~= Seq::<(String, Result<MetricScoreType, AnalysisError>)>::empty());
    }
    while rest_metrics.len() > 0
        invariant
            rest_metrics@.len() <= m.len(),
            rest_metrics@ == m.skip(m.len() - rest_metrics@.len()).reverse(),
            optional_scores_view(metrics@) == analysis::scores_view(
                m.take(m.len() - rest_metrics@.len()),
            ).map_values(|e: (Seq<char>, Result<u64, Seq<char>>)| (e.0, Some(e.1))),
        decreases rest_metrics@.len(),
    {
        let ghost k = m.len() - rest_metrics@.len();
        let ghost before = metrics@;
        let (key, score) = rest_metrics.pop().unwrap();
        proof {
            assert(m.skip(k).reverse().last() == m[k]);
            assert(rest_metrics@ =~= m.skip(k + 1).reverse());
        }
        metrics.push((key, Some(score)));
        proof {
            assert(m.take(k + 1) =~= m.take(k).push(m[k]));
            assert(optional_scores_view(metrics@) =~= optional_scores_view(before).push(
                (m[k].0@, Some(score_view(m[k].1))),
            ));
            assert(analysis::scores_view(m.take(k + 1)) =~= analysis::scores_view(m.take(k)).push(
                (m[k].0@, score_view(m[k].1)),
            ));
        }
    }
    proof {
        assert(m.take(m.len() as int) =~= m);
    }
    let folder_content = match t.folder_content {
        None => None,
        Some(content_entries) => {
            let ghost ce = content_entries;
            let mut rest = reverse_vec(content_entries);
            let mut out: Vec<(String, TopAnalysis)> = Vec::new();
            proof {
                assert(ce@.skip(0) =~= ce@);
                assert(ce@.take(0) =~= Seq::<(String, analysis::TopAnalysis)>::empty());
            }
            #[verifier::loop_isolation(false)]
            while rest.len() > 0
                invariant
                    rest@.len() <= ce@.len(),
                    rest@ == ce@.skip(ce@.len() - rest@.len()).reverse(),
                    flat_entries_view(out@) == flat_entries_of(
                        top_entries_view(ce@.take(ce@.len() - rest@.len())),
                    ),
                decreases rest@.len(),
            {
                let ghost k = ce@.len() - rest@.len();
                let ghost before = out@;
                let (key, analysis) = rest.pop().unwrap();
                proof {
                    assert(ce@.skip(k).reverse().last() == ce@[k]);
                    assert(rest@ =~= ce@.skip(k + 1).reverse());
                    assert(analysis == ce@[k].1);
                    assert(decreases_to!(h => h.folder_content));
                    assert(decreases_to!(h.folder_content => ce));
                    assert(decreases_to!(ce => ce@));
                    assert(decreases_to!(ce@ => ce@[k]));
                    assert(decreases_to!(ce@[k] => ce@[k].1));
                }
                let flat = to_flat_analysis(analysis);
                out.push((key, flat));
                proof {
                    lemma_top_entries_view_push(ce@, k);
                    let prev = top_entries_view(ce@.take(k));
                    let next = prev.push((ce@[k].0@, top_view(ce@[k].1)));
                    assert(next.drop_last() =~= prev);
                    assert(out@.drop_last() =~= before);
                }
            }
            proof {
                assert(ce@.take(ce@.len() as int) =~= ce@);
            }
            Some(out)
        },
    };
    TopAnalysis { file_name: t.file_name, metrics, folder_content }
}

/// The analysis of the folder `root` from the analyses of its files, as
/// `flat_analysis_model` says: the files placed in the folder tree by their
/// paths below `root`, every folder summarising its content. Every file must
/// have a file name.
pub fn build_final_analysis_structure<V: IMetricValue>(
    root: &str,
    file_analyses: &Vec<FileAnalysis<V>>,
) -> (r: TopAnalysis)
    requires
        all_named(file_analyses_view(file_analyses@)),
    ensures
        flat_view(r) == flat_analysis_model::<V>(root@, file_analyses_view(file_analyses@)),
{
    to_flat_analysis(build_analysis_from_file_analyses(root, file_analyses))
}

/// Whether the path of every file analysis has a file name.
pub fn all_file_names_exist<V: IMetricValue>(file_analyses: &Vec<FileAnalysis<V>>) -> (r: bool)
    ensures
        r == all_named(file_analyses_view(file_analyses@)),
{
    let ghost fas = file_analyses_view(file_analyses@);
    let mut i: usize = 0;
    while i < file_analyses.len()
        invariant
            i <= file_analyses.len(),
            fas == file_analyses_view(file_analyses@),
            forall|j: int| 0 <= j < i ==> (#[trigger] path_file_name(fas[j].0)) is Some,
        decreases file_analyses.len() - i,
    {
        assert(fas[i as int] == (file_analyses@[i as int].file_path@, analysis::models(
            file_analyses@[i as int].metrics@,
        )));
        if path_file_name_of(file_analyses[i].file_path.as_str()).is_none() {
            assert(path_file_name(fas[i as int].0) is None);
            return false;
        }
        i += 1;
    }
    true
}

/// The analysis of the folder `root`: the files that the explorer finds,
/// each analysed with every metric, combined as
/// `build_final_analysis_structure` does; `None` when a file found has no
/// file name.
pub fn do_internal_analysis<F: IFileExplorer, M: IMetric>(
    root: &str,
    file_explorer: &F,
    metrics: &Vec<M>,
) -> (r: Option<TopAnalysis>)
    ensures
        exists|files: Seq<String>, fas: Seq<(Seq<char>, Seq<<M::Value as IMetricValueClone>::Model>)>|
            #![trigger file_explorer.finds(files), analysed_from(metrics@, files, fas)]
            file_explorer.finds(files) && analysed_from(metrics@, files, fas) && match r {
                Some(t) => all_named(fas) && flat_view(t) == flat_analysis_model::<M::Value>(
                    root@,
                    fas,
                ),
                None => !all_named(fas),
            },
{
    let files_to_analyse = file_explorer.discover();
    let ghost files = files_to_analyse@;
    let file_analyses = analyse_all_files(files_to_analyse, metrics);
    let ghost fas = file_analyses_view(file_analyses@);
    if all_file_names_exist(&file_analyses) {
        let r = build_final_analysis_structure(root, &file_analyses);
        assert(file_explorer.finds(files) && analysed_from(metrics@, files, fas));
        Some(r)
    } else {
        assert(file_explorer.finds(files) && analysed_from(metrics@, files, fas));
        None
    }
}

} // verus!
