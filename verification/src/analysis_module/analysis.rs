//! The analysis of a folder: every file gives its metric values, files are
//! placed in the folder tree by their path, and each folder summarises the
//! values of what it contains.
use crate::analysis_module::folder_summary::{
    law_folders_are_sorted_and_named, lemma_empty_folder_wf, lemma_fold_wf, lemma_merge_keys,
    top_node_at, top_sorted, wf_node,
};
use crate::data_sources::file_explorer::IFileExplorer;
use crate::metrics::metric::{
    AnalysisError, IMetric, IMetricValue, IMetricValueClone, MetricScoreType, score_view,
};
use crate::paths::{
    components_after, components_below, join_components, join_path, path_components,
    path_components_of, path_file_name, path_file_name_of,
};
use crate::sorted_map::{
    collect_entries, collect_model, entry_keys, insert_sorted, keys_sorted,
    lemma_collect_entries, lemma_collect_entries_model, model_keys,
};
use crate::text::{seq_lt, str_equal, str_less, strings_view};
use vstd::prelude::*;
use vstd::string::*;

verus! {

/// The metric values of one file.
#[derive(Debug)]
pub struct FileAnalysis<V> {
    pub file_path: String,
    pub metrics: Vec<V>,
}

/// An analysed item (file or folder) with the raw metric values of what it
/// holds; a folder maps the names of its entries to their analyses.
#[derive(Debug)]
pub struct HierarchicalAnalysis<V> {
    pub file_name: String,
    pub metrics: Vec<V>,
    pub folder_content: Option<Vec<(String, HierarchicalAnalysis<V>)>>,
}

/// An analysed item with the scores of its metrics by metric name; a folder
/// maps the names of its entries to their analyses.
#[derive(Debug, PartialEq)]
pub struct TopAnalysis {
    pub file_name: String,
    pub metrics: Vec<(String, Result<MetricScoreType, AnalysisError>)>,
    pub folder_content: Option<Vec<(String, TopAnalysis)>>,
}

/// The mathematical content of a `HierarchicalAnalysis`.
pub struct HNode<M> {
    pub name: Seq<char>,
    pub metrics: Seq<M>,
    pub content: Option<Seq<(Seq<char>, HNode<M>)>>,
}

/// The mathematical content of a `TopAnalysis`.
pub struct TNode {
    pub name: Seq<char>,
    pub metrics: Seq<(Seq<char>, Result<u64, Seq<char>>)>,
    pub content: Option<Seq<(Seq<char>, TNode)>>,
}

/// The models of a list of metric values.
pub open spec fn models<V: IMetricValueClone>(v: Seq<V>) -> Seq<V::Model> {
    v.map_values(|x: V| x.model())
}

pub open spec fn hierarchical_view<V: IMetricValueClone>(h: HierarchicalAnalysis<V>) -> HNode<
    V::Model,
>
    decreases h,
{
    HNode {
        name: h.file_name@,
        metrics: models(h.metrics@),
        content: match h.folder_content {
            None => None,
            Some(v) => Some(hierarchical_entries_view(v@)),
        },
    }
}

pub open spec fn hierarchical_entries_view<V: IMetricValueClone>(
    s: Seq<(String, HierarchicalAnalysis<V>)>,
) -> Seq<(Seq<char>, HNode<V::Model>)>
    decreases s,
{
    if s.len() == 0 {
        Seq::empty()
    } else {
        hierarchical_entries_view(s.drop_last()).push(
            (s.last().0@, hierarchical_view(s.last().1)),
        )
    }
}

/// The metric scores of a `TopAnalysis`, with text as character sequences.
pub open spec fn scores_view(s: Seq<(String, Result<MetricScoreType, AnalysisError>)>) -> Seq<
    (Seq<char>, Result<u64, Seq<char>>),
> {
    s.map_values(|e: (String, Result<MetricScoreType, AnalysisError>)| (e.0@, score_view(e.1)))
}

pub open spec fn top_view(t: TopAnalysis) -> TNode
    decreases t,
{
    TNode {
        name: t.file_name@,
        metrics: scores_view(t.metrics@),
        content: match t.folder_content {
            None => None,
            Some(v) => Some(top_entries_view(v@)),
        },
    }
}

pub open spec fn top_entries_view(s: Seq<(String, TopAnalysis)>) -> Seq<(Seq<char>, TNode)>
    decreases s,
{
    if s.len() == 0 {
        Seq::empty()
    } else {
        top_entries_view(s.drop_last()).push((s.last().0@, top_view(s.last().1)))
    }
}

proof fn lemma_hierarchical_entries_view<V: IMetricValueClone>(
    s: Seq<(String, HierarchicalAnalysis<V>)>,
)
    ensures
        hierarchical_entries_view(s).len() == s.len(),
        forall|i: int|
            0 <= i < s.len() ==> #[trigger] hierarchical_entries_view(s)[i] == (
                s[i].0@,
                hierarchical_view(s[i].1),
            ),
    decreases s.len(),
{
    if s.len() > 0 {
        lemma_hierarchical_entries_view(s.drop_last());
    }
}

/// The first value of `s` whose metric is `key`.
pub open spec fn first_with_key<V: IMetricValue>(s: Seq<V::Model>, key: Seq<char>) -> Option<
    V::Model,
>
    decreases s.len(),
{
    if s.len() == 0 {
        None
    } else if V::key_of(s[0]) == key {
        Some(s[0])
    } else {
        first_with_key::<V>(s.drop_first(), key)
    }
}

/// Whether some value of `s` is of the metric `key`.
pub open spec fn has_key<V: IMetricValue>(s: Seq<V::Model>, key: Seq<char>) -> bool {
    exists|i: int| 0 <= i < s.len() && V::key_of(s[i]) == key
}

/// The metrics of two analyses combined: each value of `current` aggregated
/// with the first value of `other` of the same metric (kept as it is when
/// there is none), followed by the values of `other` whose metric `current`
/// does not have.
pub open spec fn combine_metrics_model<V: IMetricValue>(
    current: Seq<V::Model>,
    other: Seq<V::Model>,
) -> Seq<V::Model> {
    current.map_values(aggregate_with_first::<V>(other)) + other.filter(missing_from::<V>(current))
}

/// A value aggregated with the first value of `other` of the same metric, if any.
pub open spec fn aggregate_with_first<V: IMetricValue>(other: Seq<V::Model>) -> spec_fn(
    V::Model,
) -> V::Model {
    |m: V::Model|
        match first_with_key::<V>(other, V::key_of(m)) {
            Some(o) => V::aggregated(m, o),
            None => m,
        }
}

/// Whether a value is of a metric that `current` does not have.
pub open spec fn missing_from<V: IMetricValue>(current: Seq<V::Model>) -> spec_fn(V::Model) -> bool {
    |o: V::Model| !has_key::<V>(current, V::key_of(o))
}

proof fn lemma_first_with_key<V: IMetricValue>(s: Seq<V::Model>, key: Seq<char>, j: int)
    requires
        0 <= j <= s.len(),
        forall|k: int| 0 <= k < j ==> V::key_of(#[trigger] s[k]) != key,
        j < s.len() ==> V::key_of(s[j]) == key,
    ensures
        first_with_key::<V>(s, key) == if j < s.len() {
            Some(s[j])
        } else {
            None
        },
    decreases j,
{
    if j > 0 {
        assert(V::key_of(s[0]) != key);
        let t = s.drop_first();
        assert forall|k: int| 0 <= k < j - 1 implies V::key_of(#[trigger] t[k]) != key by {
            assert(t[k] == s[k + 1]);
        }
        lemma_first_with_key::<V>(t, key, j - 1);
    }
}

/// Combining the metrics of two analyses keeps the metric of every value of
/// either and adds no other: a metric is among the combined values exactly
/// when it is among the values of one of the two.
pub proof fn law_combined_metrics_keep_every_metric<V: IMetricValue>(
    current: Seq<V::Model>,
    other: Seq<V::Model>,
    key: Seq<char>,
)
    ensures
        has_key::<V>(combine_metrics_model::<V>(current, other), key) <==> (has_key::<V>(
            current,
            key,
        ) || has_key::<V>(other, key)),
{
    let first = current.map_values(aggregate_with_first::<V>(other));
    let rest = other.filter(missing_from::<V>(current));
    let r = combine_metrics_model::<V>(current, other);
    assert(r == first + rest);
    assert forall|i: int| 0 <= i < current.len() implies V::key_of(#[trigger] first[i]) == V::key_of(
        current[i],
    ) by {
        match first_with_key::<V>(other, V::key_of(current[i])) {
            Some(o) => {
                V::lemma_aggregated_keeps_key(current[i], o);
            },
            None => {},
        }
    }
    if has_key::<V>(r, key) {
        let i = choose|i: int| 0 <= i < r.len() && V::key_of(r[i]) == key;
        if i < first.len() {
            assert(r[i] == first[i]);
            assert(V::key_of(current[i]) == key);
        } else {
            assert(r[i] == rest[i - first.len()]);
            assert(rest.contains(r[i]));
            other.lemma_filter_contains_rev(missing_from::<V>(current), r[i]);
            let j = choose|j: int| 0 <= j < other.len() && other[j] == r[i];
            assert(V::key_of(other[j]) == key);
        }
    }
    if has_key::<V>(current, key) {
        let i = choose|i: int| 0 <= i < current.len() && V::key_of(current[i]) == key;
        assert(r[i] == first[i]);
        assert(V::key_of(r[i]) == key);
    } else if has_key::<V>(other, key) {
        let j = choose|j: int| 0 <= j < other.len() && V::key_of(other[j]) == key;
        assert(missing_from::<V>(current)(other[j]));
        other.lemma_filter_contains(missing_from::<V>(current), j);
        let k = choose|k: int| 0 <= k < rest.len() && rest[k] == other[j];
        assert(r[first.len() + k] == rest[k]);
        assert(V::key_of(r[first.len() + k]) == key);
    }
}

/// The summary of the metrics of a list of files holds a value of a metric
/// exactly when some file has a value of it.
pub proof fn law_summary_keeps_every_metric<V: IMetricValue>(
    files: Seq<Seq<V::Model>>,
    key: Seq<char>,
)
    ensures
        has_key::<V>(metrics_summary::<V>(files), key) <==> exists|i: int|
            0 <= i < files.len() && #[trigger] has_key::<V>(files[i], key),
    decreases files.len(),
{
    if files.len() == 0 {
        assert(!has_key::<V>(Seq::<V::Model>::empty(), key));
    } else {
        let init = files.drop_last();
        law_summary_keeps_every_metric::<V>(init, key);
        law_combined_metrics_keep_every_metric::<V>(metrics_summary::<V>(init), files.last(), key);
        if exists|i: int| 0 <= i < files.len() && #[trigger] has_key::<V>(files[i], key) {
            let i = choose|i: int| 0 <= i < files.len() && #[trigger] has_key::<V>(files[i], key);
            if i < init.len() {
                assert(init[i] == files[i]);
            }
        }
        if exists|i: int| 0 <= i < init.len() && #[trigger] has_key::<V>(init[i], key) {
            let i = choose|i: int| 0 <= i < init.len() && #[trigger] has_key::<V>(init[i], key);
            assert(files[i] == init[i]);
        }
        assert(files[files.len() - 1] == files.last());
    }
}

/// Index of the first value of `metrics` of the metric `key`.
fn find_metric<V: IMetricValue>(metrics: &Vec<V>, key: &str) -> (r: Option<usize>)
    ensures
        match r {
            Some(j) => j < metrics@.len() && V::key_of(metrics@[j as int].model()) == key@ && (
            forall|k: int| 0 <= k < j ==> V::key_of(#[trigger] metrics@[k].model()) != key@),
            None => forall|k: int|
                0 <= k < metrics@.len() ==> V::key_of(#[trigger] metrics@[k].model()) != key@,
        },
{
    let mut j: usize = 0;
    while j < metrics.len()
        invariant
            j <= metrics.len(),
            forall|k: int| 0 <= k < j ==> V::key_of(#[trigger] metrics@[k].model()) != key@,
        decreases metrics.len() - j,
    {
        if str_equal(metrics[j].get_key(), key) {
            return Some(j);
        }
        j += 1;
    }
    None
}

/// The metrics of two analyses combined, as `combine_metrics_model` says.
pub fn combine_metrics<V: IMetricValue>(current_metrics: Vec<V>, other_metrics: Vec<V>) -> (r: Vec<V>)
    ensures
        models(r@) == combine_metrics_model::<V>(models(current_metrics@), models(other_metrics@)),
        forall|key: Seq<char>|
            #[trigger] has_key::<V>(models(r@), key) <==> (has_key::<V>(
                models(current_metrics@),
                key,
            ) || has_key::<V>(models(other_metrics@), key)),
{
    let ghost cur = models(current_metrics@);
    let ghost oth = models(other_metrics@);
    let mut out: Vec<V> = Vec::new();
    let mut i: usize = 0;
    while i < current_metrics.len()
        invariant
            i <= current_metrics.len(),
            cur == models(current_metrics@),
            oth == models(other_metrics@),
            models(out@) == cur.take(i as int).map_values(aggregate_with_first::<V>(oth)),
        decreases current_metrics.len() - i,
    {
        let current = &current_metrics[i];
        let found = find_metric(&other_metrics, current.get_key());
        let ghost before = out@;
        let x = match found {
            Some(j) => {
                proof {
                    assert forall|k: int| 0 <= k < j implies V::key_of(#[trigger] oth[k]) != V::key_of(
                        cur[i as int],
                    ) by {
                        assert(oth[k] == other_metrics@[k].model());
                    }
                    lemma_first_with_key::<V>(oth, V::key_of(cur[i as int]), j as int);
                }
                current.aggregate(other_metrics[j].clone_box())
            },
            None => {
                proof {
                    assert forall|k: int| 0 <= k < oth.len() implies V::key_of(#[trigger] oth[k])
                        != V::key_of(cur[i as int]) by {
                        assert(oth[k] == other_metrics@[k].model());
                    }
                    lemma_first_with_key::<V>(oth, V::key_of(cur[i as int]), oth.len() as int);
                }
                current.clone_box()
            },
        };
        out.push(x);
        proof {
            assert(x.model() == aggregate_with_first::<V>(oth)(cur[i as int]));
            assert(models(out@) =~= models(before).push(x.model()));
            assert(cur.take(i + 1).map_values(aggregate_with_first::<V>(oth)) =~= cur.take(
                i as int,
            ).map_values(aggregate_with_first::<V>(oth)).push(
                aggregate_with_first::<V>(oth)(cur[i as int]),
            ));
        }
        i += 1;
    }
    let ghost first_part = models(out@);
    proof {
        assert(cur.take(current_metrics.len() as int) =~= cur);
        assert(oth.take(0) =~= Seq::<V::Model>::empty());
        assert(oth.take(0).filter(missing_from::<V>(cur)) =~= Seq::<V::Model>::empty());
    }
    let mut j: usize = 0;
    while j < other_metrics.len()
        invariant
            j <= other_metrics.len(),
            cur == models(current_metrics@),
            oth == models(other_metrics@),
            first_part == cur.map_values(aggregate_with_first::<V>(oth)),
            models(out@) == first_part + oth.take(j as int).filter(missing_from::<V>(cur)),
        decreases other_metrics.len() - j,
    {
        let other = &other_metrics[j];
        let found = find_metric(&current_metrics, other.get_key());
        let ghost before = out@;
        proof {
            let t = oth.take(j + 1);
            assert(t.drop_last() =~= oth.take(j as int));
            assert(t.last() == oth[j as int]);
            reveal_with_fuel(Seq::filter, 1);
            assert(t.filter(missing_from::<V>(cur)) == if missing_from::<V>(cur)(t.last()) {
                t.drop_last().filter(missing_from::<V>(cur)).push(t.last())
            } else {
                t.drop_last().filter(missing_from::<V>(cur))
            });
        }
        match found {
            Some(k) => {
                proof {
                    assert(cur[k as int] == current_metrics@[k as int].model());
                    assert(has_key::<V>(cur, V::key_of(oth[j as int])));
                }
            },
            None => {
                proof {
                    assert(!has_key::<V>(cur, V::key_of(oth[j as int]))) by {
                        if has_key::<V>(cur, V::key_of(oth[j as int])) {
                            let k = choose|k: int| 0 <= k < cur.len() && V::key_of(cur[k]) == V::key_of(oth[j as int]);
                            assert(cur[k] == current_metrics@[k].model());
                        }
                    }
                }
                let x = other.clone_box();
                out.push(x);
                proof {
                    assert(models(out@) =~= models(before).push(x.model()));
                }
            },
        }
        j += 1;
    }
    proof {
        assert(oth.take(other_metrics.len() as int) =~= oth);
        assert forall|key: Seq<char>| #[trigger] has_key::<V>(models(out@), key) <==> (has_key::<V>(
            cur,
            key,
        ) || has_key::<V>(oth, key)) by {
            law_combined_metrics_keep_every_metric::<V>(cur, oth, key);
        }
    }
    out
}

/// Two analyses of one item combined: the name of the first, the metrics
/// combined, and the content merged entry by entry.
pub open spec fn combine_model<V: IMetricValue>(a: HNode<V::Model>, b: HNode<V::Model>) -> HNode<
    V::Model,
>
    decreases a, b,
{
    HNode {
        name: a.name,
        metrics: combine_metrics_model::<V>(a.metrics, b.metrics),
        content: match (a.content, b.content) {
            (None, _) => Some(Seq::empty()),
            (Some(ca), None) => Some(ca),
            (Some(ca), Some(cb)) => Some(merge_model::<V>(ca, cb)),
        },
    }
}

/// The entries of two folders in key order: an entry that both have is
/// combined, any other is kept as it is.
pub open spec fn merge_model<V: IMetricValue>(
    a: Seq<(Seq<char>, HNode<V::Model>)>,
    b: Seq<(Seq<char>, HNode<V::Model>)>,
) -> Seq<(Seq<char>, HNode<V::Model>)>
    decreases a, b,
{
    if a.len() == 0 {
        b
    } else if b.len() == 0 {
        a
    } else if a.last().0 == b.last().0 {
        merge_model::<V>(a.drop_last(), b.drop_last()).push(
            (a.last().0, combine_model::<V>(a.last().1, b.last().1)),
        )
    } else if seq_lt(b.last().0, a.last().0) {
        merge_model::<V>(a.drop_last(), b).push(a.last())
    } else {
        merge_model::<V>(a, b.drop_last()).push(b.last())
    }
}

/// The analysis of one file placed under the components `c` of its path: a
/// chain of folders, one per component, that all carry the file's values.
/// When the last component is `..` the chain stops one folder earlier, with
/// no content.
pub open spec fn chain_model<M>(c: Seq<Seq<char>>, m: Seq<M>) -> HNode<M>
    decreases c.len(),
{
    if c.len() <= 1 {
        HNode { name: c[0], metrics: m, content: None }
    } else if c.len() == 2 && c[1] == seq!['.', '.'] {
        HNode { name: c[0], metrics: m, content: None }
    } else {
        HNode {
            name: c[0],
            metrics: m,
            content: Some(seq![(c[1], chain_model(c.drop_first(), m))]),
        }
    }
}

/// The analysis of a file with path `path`: the chain of its components when
/// there are at least two, otherwise the file alone under its path.
pub open spec fn file_model<M>(path: Seq<char>, m: Seq<M>) -> HNode<M> {
    let c = path_components(path);
    if c.len() >= 2 {
        chain_model(c, m)
    } else {
        HNode { name: path, metrics: m, content: None }
    }
}

/// Copies metric values.
fn clone_metrics<V: IMetricValue>(v: &Vec<V>) -> (r: Vec<V>)
    ensures
        models(r@) == models(v@),
{
    let mut out: Vec<V> = Vec::new();
    let mut i: usize = 0;
    while i < v.len()
        invariant
            i <= v.len(),
            models(out@) == models(v@).take(i as int),
        decreases v.len() - i,
    {
        let ghost before = out@;
        let x = v[i].clone_box();
        out.push(x);
        proof {
            assert(models(out@) =~= models(before).push(x.model()));
            assert(models(v@).take(i + 1) =~= models(v@).take(i as int).push(v@[i as int].model()));
        }
        i += 1;
    }
    proof {
        assert(models(v@).take(v.len() as int) =~= models(v@));
    }
    out
}

/// The chain of folders for the components `comps[start..]`.
fn chain_from<V: IMetricValue>(comps: &Vec<String>, start: usize, metrics: &Vec<V>) -> (r:
    HierarchicalAnalysis<V>)
    requires
        start < comps.len(),
    ensures
        hierarchical_view(r) == chain_model(strings_view(comps@).skip(start as int), models(metrics@)),
    decreases comps.len() - start,
{
    let ghost c = strings_view(comps@).skip(start as int);
    let n = comps.len();
    let is_parent = n - start == 2 && {
        let last = comps[start + 1].as_str();
        let len = last.unicode_len();
        len == 2 && last.get_char(0) == '.' && last.get_char(1) == '.'
    };
    proof {
        if n - start == 2 {
            assert(c[1] == comps@[start + 1]@);
            if c[1].len() == 2 {
                assert(c[1] == seq![c[1][0], c[1][1]]);
            }
        }
    }
    if n - start <= 1 || is_parent {
        HierarchicalAnalysis {
            file_name: comps[start].clone(),
            metrics: clone_metrics(metrics),
            folder_content: None,
        }
    } else {
        let child = chain_from(comps, start + 1, metrics);
        let key = comps[start + 1].clone();
        assert(key@ == c[1]);
        let mut content: Vec<(String, HierarchicalAnalysis<V>)> = Vec::new();
        content.push((key, child));
        let r = HierarchicalAnalysis {
            file_name: comps[start].clone(),
            metrics: clone_metrics(metrics),
            folder_content: Some(content),
        };
        proof {
            assert(strings_view(comps@).skip(start + 1) =~= c.drop_first());
            assert(content@.drop_last() =~= Seq::<(String, HierarchicalAnalysis<V>)>::empty());
            assert(content@.last() == (key, child));
            lemma_hierarchical_entries_view(content@);
            assert(hierarchical_entries_view(content@) =~= seq![(c[1], chain_model(c.drop_first(), models(metrics@)))]);
        }
        r
    }
}

impl<V: IMetricValue> HierarchicalAnalysis<V> {
    /// The analysis of one file, placed in folders by the components of its
    /// path.
    pub fn new(file_analysis: &FileAnalysis<V>) -> (r: HierarchicalAnalysis<V>)
        ensures
            hierarchical_view(r) == file_model(
                file_analysis.file_path@,
                models(file_analysis.metrics@),
            ),
    {
        let comps = path_components_of(file_analysis.file_path.as_str());
        if comps.len() >= 2 {
            let r = chain_from(&comps, 0, &file_analysis.metrics);
            proof {
                assert(strings_view(comps@).skip(0) =~= strings_view(comps@));
            }
            r
        } else {
            HierarchicalAnalysis {
                file_name: file_analysis.file_path.clone(),
                metrics: clone_metrics(&file_analysis.metrics),
                folder_content: None,
            }
        }
    }
}

/// The items of `v` in reverse order.
pub fn reverse_vec<T>(v: Vec<T>) -> (r: Vec<T>)
    ensures
        r@ == v@.reverse(),
{
    let ghost orig = v@;
    let mut v = v;
    let mut out: Vec<T> = Vec::new();
    while v.len() > 0
        invariant
            v@ == orig.take(v@.len() as int),
            v@.len() <= orig.len(),
            out@ == orig.skip(v@.len() as int).reverse(),
        decreases v@.len(),
    {
        let ghost before = out@;
        let ghost n = v@.len();
        let x = v.pop().unwrap();
        out.push(x);
        proof {
            assert(v@ =~= orig.take(n - 1));
            assert(out@ =~= orig.skip(n - 1).reverse());
        }
    }
    proof {
        assert(orig.skip(0) =~= orig);
    }
    out
}

proof fn lemma_hierarchical_entries_reverse<V: IMetricValueClone>(
    s: Seq<(String, HierarchicalAnalysis<V>)>,
)
    ensures
        hierarchical_entries_view(s.reverse()) == hierarchical_entries_view(s).reverse(),
{
    lemma_hierarchical_entries_view(s);
    lemma_hierarchical_entries_view(s.reverse());
    assert(hierarchical_entries_view(s.reverse()) =~= hierarchical_entries_view(s).reverse());
}

proof fn lemma_hierarchical_entries_drop_last<V: IMetricValueClone>(
    s: Seq<(String, HierarchicalAnalysis<V>)>,
)
    requires
        s.len() > 0,
    ensures
        hierarchical_entries_view(s.drop_last()) == hierarchical_entries_view(s).drop_last(),
        hierarchical_entries_view(s).last() == (s.last().0@, hierarchical_view(s.last().1)),
{
    assert(hierarchical_entries_view(s).drop_last() =~= hierarchical_entries_view(s.drop_last()));
}

/// The entries of two folders merged in key order, as `merge_model` says.
#[verifier::spinoff_prover]
#[verifier::rlimit(40)]
fn merge_entries<V: IMetricValue>(
    a: Vec<(String, HierarchicalAnalysis<V>)>,
    b: Vec<(String, HierarchicalAnalysis<V>)>,
) -> (r: Vec<(String, HierarchicalAnalysis<V>)>)
    ensures
        hierarchical_entries_view(r@) == merge_model::<V>(
            hierarchical_entries_view(a@),
            hierarchical_entries_view(b@),
        ),
    decreases a, b,
{
    let ghost orig_a = a@;
    let ghost orig_b = b@;
    let ghost target = merge_model::<V>(
        hierarchical_entries_view(a@),
        hierarchical_entries_view(b@),
    );
    let ghost a_param = a;
    let ghost b_param = b;
    let mut a = a;
    let mut b = b;
    let mut rev: Vec<(String, HierarchicalAnalysis<V>)> = Vec::new();
    #[verifier::loop_isolation(false)]
    while a.len() > 0 || b.len() > 0
        invariant
            a@.len() <= orig_a.len(),
            b@.len() <= orig_b.len(),
            a@ == orig_a.take(a@.len() as int),
            b@ == orig_b.take(b@.len() as int),
            orig_a == a_param@,
            orig_b == b_param@,
            target == merge_model::<V>(hierarchical_entries_view(a@), hierarchical_entries_view(b@))
                + hierarchical_entries_view(rev@).reverse(),
        decreases a@.len() + b@.len(),
    {
        let ghost ea = hierarchical_entries_view(a@);
        let ghost eb = hierarchical_entries_view(b@);
        let ghost before = rev@;
        let ghost na = a@.len();
        let ghost nb = b@.len();
        proof {
            lemma_hierarchical_entries_view(before);
            lemma_hierarchical_entries_view(a@);
            lemma_hierarchical_entries_view(b@);
        }
        let take_a: bool;
        let take_b: bool;
        if a.len() == 0 {
            take_a = false;
            take_b = true;
        } else if b.len() == 0 {
            take_a = true;
            take_b = false;
        } else {
            let la = a.len() - 1;
            let lb = b.len() - 1;
            if str_equal(a[la].0.as_str(), b[lb].0.as_str()) {
                take_a = true;
                take_b = true;
            } else if str_less(b[lb].0.as_str(), a[la].0.as_str()) {
                take_a = true;
                take_b = false;
            } else {
                take_a = false;
                take_b = true;
            }
        }
        if take_a && take_b {
            let (ka, xa) = a.pop().unwrap();
            let (_kb, xb) = b.pop().unwrap();
            proof {
                lemma_hierarchical_entries_drop_last(orig_a.take(na as int));
                lemma_hierarchical_entries_drop_last(orig_b.take(nb as int));
                assert(a@ =~= orig_a.take(na - 1));
                assert(b@ =~= orig_b.take(nb - 1));
                assert(orig_a.take(na as int).last() == orig_a[na - 1]);
                assert(decreases_to!(a_param => a_param@));
                assert(decreases_to!(a_param@ => a_param@[na - 1]));
                assert(decreases_to!(a_param@[na - 1] => a_param@[na - 1].1));
                assert(xa == a_param@[na - 1].1);
                assert(decreases_to!(a_param => xa));
                assert(decreases_to!(a_param, b_param => xa, xb));
            }
            let combined = combine_hierarchical_analysis(xa, xb);
            rev.push((ka, combined));
        } else if take_a {
            let e = a.pop().unwrap();
            proof {
                lemma_hierarchical_entries_drop_last(orig_a.take(na as int));
                assert(a@ =~= orig_a.take(na - 1));
            }
            rev.push(e);
        } else {
            let e = b.pop().unwrap();
            proof {
                lemma_hierarchical_entries_drop_last(orig_b.take(nb as int));
                assert(b@ =~= orig_b.take(nb - 1));
            }
            rev.push(e);
        }
        proof {
            lemma_hierarchical_entries_drop_last(rev@);
            assert(rev@.drop_last() =~= before);
            let new_tail = hierarchical_entries_view(rev@).reverse();
            let old_tail = hierarchical_entries_view(before).reverse();
            assert(new_tail =~= seq![hierarchical_entries_view(rev@).last()] + old_tail);
            let m = merge_model::<V>(hierarchical_entries_view(a@), hierarchical_entries_view(b@));
            assert(merge_model::<V>(ea, eb) == m.push(hierarchical_entries_view(rev@).last()));
            assert(target =~= m + new_tail);
        }
    }
    proof {
        assert(hierarchical_entries_view(a@) =~= Seq::<(Seq<char>, HNode<V::Model>)>::empty());
        assert(hierarchical_entries_view(b@) =~= Seq::<(Seq<char>, HNode<V::Model>)>::empty());
        lemma_hierarchical_entries_reverse(rev@);
        assert(target =~= hierarchical_entries_view(rev@).reverse());
    }
    reverse_vec(rev)
}

/// Whether the entries of a folder content, if there is one, are sorted by
/// name, each name once.
pub open spec fn content_sorted<V: IMetricValueClone>(
    c: Option<Vec<(String, HierarchicalAnalysis<V>)>>,
) -> bool {
    c matches Some(v) ==> keys_sorted(model_keys(hierarchical_entries_view(v@)))
}

/// The contents of two folders combined: no content when the first has none,
/// the first's when the second has none, both merged otherwise. Sorted
/// contents give a sorted content.
pub fn combine_folder_content<V: IMetricValue>(
    root_content_entries: Option<Vec<(String, HierarchicalAnalysis<V>)>>,
    other_content_entries: Option<Vec<(String, HierarchicalAnalysis<V>)>>,
) -> (r: Option<Vec<(String, HierarchicalAnalysis<V>)>>)
    ensures
        match (root_content_entries, other_content_entries) {
            (None, _) => r matches Some(v) && v@.len() == 0,
            (Some(ca), None) => r == Some(ca),
            (Some(ca), Some(cb)) => r matches Some(v) && hierarchical_entries_view(v@)
                == merge_model::<V>(hierarchical_entries_view(ca@), hierarchical_entries_view(cb@)),
        },
        content_sorted(root_content_entries) && content_sorted(other_content_entries)
            ==> content_sorted(r),
    decreases root_content_entries, other_content_entries,
{
    match root_content_entries {
        None => {
            let r: Option<Vec<(String, HierarchicalAnalysis<V>)>> = Some(Vec::new());
            proof {
                assert(model_keys(hierarchical_entries_view(r->0@)) =~= Seq::<Seq<char>>::empty());
            }
            r
        },
        Some(ca) => match other_content_entries {
            None => Some(ca),
            Some(cb) => {
                proof {
                    assert(decreases_to!(root_content_entries => ca));
                }
                let merged = merge_entries(ca, cb);
                proof {
                    if content_sorted(root_content_entries) && content_sorted(other_content_entries) {
                        lemma_merge_keys::<V>(
                            hierarchical_entries_view(ca@),
                            hierarchical_entries_view(cb@),
                        );
                    }
                }
                Some(merged)
            },
        },
    }
}

/// Two analyses of one item combined, as `combine_model` says.
pub fn combine_hierarchical_analysis<V: IMetricValue>(
    root_analysis: HierarchicalAnalysis<V>,
    other_analysis: HierarchicalAnalysis<V>,
) -> (r: HierarchicalAnalysis<V>)
    ensures
        hierarchical_view(r) == combine_model::<V>(
            hierarchical_view(root_analysis),
            hierarchical_view(other_analysis),
        ),
    decreases root_analysis, other_analysis,
{
    proof {
        assert(decreases_to!(root_analysis => root_analysis.folder_content));
    }
    let ghost rc = root_analysis.folder_content;
    let file_name = combine_filenames(root_analysis.file_name, other_analysis.file_name);
    let metrics = combine_metrics(root_analysis.metrics, other_analysis.metrics);
    let folder_content = combine_folder_content(
        root_analysis.folder_content,
        other_analysis.folder_content,
    );
    let r = HierarchicalAnalysis { file_name, metrics, folder_content };
    proof {
        match rc {
            None => {
                assert(hierarchical_entries_view(r.folder_content->0@) =~= Seq::<
                    (Seq<char>, HNode<V::Model>),
                >::empty());
            },
            _ => {},
        }
    }
    r
}

/// The name kept when two analyses of one item combine: the first one.
pub fn combine_filenames(current_analysis_name: String, _other: String) -> (r: String)
    ensures
        r == current_analysis_name,
{
    current_analysis_name
}

/// The path and metric models of each file analysis.
pub open spec fn file_analyses_view<V: IMetricValueClone>(v: Seq<FileAnalysis<V>>) -> Seq<
    (Seq<char>, Seq<V::Model>),
> {
    v.map_values(|f: FileAnalysis<V>| (f.file_path@, models(f.metrics@)))
}

/// The file name of the analysed root folder, empty when it has none.
pub open spec fn root_file_name(root: Seq<char>) -> Seq<char> {
    match path_file_name(root) {
        Some(n) => n,
        None => Seq::empty(),
    }
}

/// Whether the path of a file analysis lies below `root`: the components of
/// `root` begin those of the path.
pub open spec fn is_under_root<M>(root: Seq<char>) -> spec_fn((Seq<char>, Seq<M>)) -> bool {
    |f: (Seq<char>, Seq<M>)| components_after(f.0, root) is Some
}

/// The path of a file analysis below `root` written from the file name of
/// `root` on: that name followed by the components of the path after those
/// of `root`.
pub open spec fn renamed_from_root<M>(root: Seq<char>) -> spec_fn((Seq<char>, Seq<M>)) -> (
    Seq<char>,
    Seq<M>,
) {
    |f: (Seq<char>, Seq<M>)|
        (join_components(seq![root_file_name(root)] + components_after(f.0, root)->0), f.1)
}

/// The file analyses whose path lies below `root`, with their paths written
/// from the file name of `root` on.
pub open spec fn renamed_under_root<M>(fas: Seq<(Seq<char>, Seq<M>)>, root: Seq<char>) -> Seq<
    (Seq<char>, Seq<M>),
> {
    fas.filter(is_under_root::<M>(root)).map_values(renamed_from_root::<M>(root))
}

/// The analysis of `root` with every file of `fas` combined into it, in order.
pub open spec fn fold_model<V: IMetricValue>(
    root: HNode<V::Model>,
    fas: Seq<(Seq<char>, Seq<V::Model>)>,
) -> HNode<V::Model>
    decreases fas.len(),
{
    if fas.len() == 0 {
        root
    } else {
        combine_model::<V>(fold_model::<V>(root, fas.drop_last()), file_model(fas.last().0, fas.last().1))
    }
}

/// An analysis with no metric and an empty content.
pub open spec fn empty_folder<M>(name: Seq<char>) -> HNode<M> {
    HNode { name, metrics: Seq::empty(), content: Some(Seq::empty()) }
}

/// The name and score of each metric value.
pub open spec fn metric_scores<V: IMetricValue>(ms: Seq<V::Model>) -> Seq<
    (Seq<char>, Result<u64, Seq<char>>),
> {
    ms.map_values(|m: V::Model| (V::key_of(m), V::score_of(m)))
}

/// The scores of an analysis by metric name (a later value of a metric
/// replacing an earlier one), and the same for its content.
pub open spec fn top_model<V: IMetricValue>(h: HNode<V::Model>) -> TNode
    decreases h,
{
    TNode {
        name: h.name,
        metrics: collect_model(metric_scores::<V>(h.metrics)),
        content: match h.content {
            None => None,
            Some(c) => Some(top_entries_model::<V>(c)),
        },
    }
}

pub open spec fn top_entries_model<V: IMetricValue>(s: Seq<(Seq<char>, HNode<V::Model>)>) -> Seq<
    (Seq<char>, TNode),
>
    decreases s,
{
    if s.len() == 0 {
        Seq::empty()
    } else {
        top_entries_model::<V>(s.drop_last()).push((s.last().0, top_model::<V>(s.last().1)))
    }
}

/// The analysis of the folder `root` from the analyses of its files: the
/// files placed by their path below the root's file name, folders combining
/// the values of their content, and scores by metric name.
pub open spec fn analysis_model<V: IMetricValue>(
    root: Seq<char>,
    fas: Seq<(Seq<char>, Seq<V::Model>)>,
) -> TNode {
    top_model::<V>(
        fold_model::<V>(empty_folder(root_file_name(root)), renamed_under_root(fas, root)),
    )
}

/// The file analyses whose path lies below `root` (by components, as
/// `Path::strip_prefix` checks), with their paths written from the file name
/// of `root` on (so that the analysis shows the analysed folder by its name
/// only).
pub fn keep_only_last_root_directory_in_analyses_file_names<V: IMetricValue>(
    file_analyses: &Vec<FileAnalysis<V>>,
    root: &str,
) -> (r: Vec<FileAnalysis<V>>)
    ensures
        file_analyses_view(r@) == renamed_under_root(file_analyses_view(file_analyses@), root@),
{
    let ghost fas = file_analyses_view(file_analyses@);
    let root_filename = match path_file_name_of(root) {
        Some(name) => name,
        None => String::new(),
    };
    let mut out: Vec<FileAnalysis<V>> = Vec::new();
    let mut i: usize = 0;
    proof {
        assert(fas.take(0) =~= Seq::<(Seq<char>, Seq<V::Model>)>::empty());
        assert(fas.take(0).filter(is_under_root::<V::Model>(root@)) =~= Seq::<
            (Seq<char>, Seq<V::Model>),
        >::empty());
    }
    while i < file_analyses.len()
        invariant
            i <= file_analyses.len(),
            fas == file_analyses_view(file_analyses@),
            root_filename@ == root_file_name(root@),
            file_analyses_view(out@) == renamed_under_root(fas.take(i as int), root@),
        decreases file_analyses.len() - i,
    {
        let fa = &file_analyses[i];
        let ghost before = out@;
        proof {
            let t = fas.take(i + 1);
            assert(t.drop_last() =~= fas.take(i as int));
            assert(t.last() == fas[i as int]);
            reveal_with_fuel(Seq::filter, 1);
            assert(t.filter(is_under_root::<V::Model>(root@)) == if is_under_root::<V::Model>(root@)(
                t.last(),
            ) {
                t.drop_last().filter(is_under_root::<V::Model>(root@)).push(t.last())
            } else {
                t.drop_last().filter(is_under_root::<V::Model>(root@))
            });
            assert(fas[i as int] == (fa.file_path@, models(fa.metrics@)));
        }
        match components_below(fa.file_path.as_str(), root) {
            Some(rest) => {
                let mut rest = rest;
                let ghost rest_view = strings_view(rest@);
                let mut comps: Vec<String> = Vec::new();
                comps.push(root_filename.clone());
                comps.append(&mut rest);
                assert(strings_view(comps@) =~= seq![root_filename@] + rest_view);
                let file_path = join_path(&comps);
                let renamed = FileAnalysis { file_path, metrics: clone_metrics(&fa.metrics) };
                out.push(renamed);
                proof {
                    let kept = fas.take(i as int).filter(is_under_root::<V::Model>(root@));
                    assert(file_analyses_view(out@) =~= file_analyses_view(before).push(
                        renamed_from_root::<V::Model>(root@)(fas[i as int]),
                    ));
                    assert(kept.push(fas[i as int]).map_values(renamed_from_root::<V::Model>(root@))
                        =~= kept.map_values(renamed_from_root::<V::Model>(root@)).push(
                        renamed_from_root::<V::Model>(root@)(fas[i as int]),
                    ));
                }
            },
            None => {},
        }
        i += 1;
    }
    proof {
        assert(fas.take(file_analyses.len() as int) =~= fas);
    }
    out
}

/// `root_analysis` with the analysis of every file of `file_analyses`
/// combined into it, in order.
pub fn build_hierarchical_analysis_structure<V: IMetricValue>(
    root_analysis: HierarchicalAnalysis<V>,
    file_analyses: &Vec<FileAnalysis<V>>,
) -> (r: HierarchicalAnalysis<V>)
    ensures
        hierarchical_view(r) == fold_model::<V>(
            hierarchical_view(root_analysis),
            file_analyses_view(file_analyses@),
        ),
        file_analyses@.len() == 0 ==> hierarchical_view(r) == hierarchical_view(root_analysis),
        wf_node(hierarchical_view(root_analysis)) ==> wf_node(hierarchical_view(r)),
{
    let ghost fas = file_analyses_view(file_analyses@);
    let ghost root = hierarchical_view(root_analysis);
    let mut updated_root_analysis = root_analysis;
    let mut i: usize = 0;
    proof {
        assert(fas.take(0) =~= Seq::<(Seq<char>, Seq<V::Model>)>::empty());
    }
    while i < file_analyses.len()
        invariant
            i <= file_analyses.len(),
            fas == file_analyses_view(file_analyses@),
            hierarchical_view(updated_root_analysis) == fold_model::<V>(root, fas.take(i as int)),
        decreases file_analyses.len() - i,
    {
        let current_file_top_analysis = HierarchicalAnalysis::new(&file_analyses[i]);
        updated_root_analysis = combine_hierarchical_analysis(
            updated_root_analysis,
            current_file_top_analysis,
        );
        proof {
            let t = fas.take(i + 1);
            assert(t.drop_last() =~= fas.take(i as int));
            assert(t.last() == fas[i as int]);
        }
        i += 1;
    }
    proof {
        assert(fas.take(file_analyses.len() as int) =~= fas);
        if wf_node(root) {
            lemma_fold_wf::<V>(root, fas);
        }
    }
    updated_root_analysis
}

/// The scores of `hierarchical_analysis` and of its content, by metric name.
pub fn build_top_analysis_structure<V: IMetricValue>(
    hierarchical_analysis: HierarchicalAnalysis<V>,
) -> (r: TopAnalysis)
    ensures
        top_view(r) == top_model::<V>(hierarchical_view(hierarchical_analysis)),
    decreases hierarchical_analysis,
{
    let ghost h = hierarchical_analysis;
    let ghost hv = hierarchical_view(hierarchical_analysis);
    let mut metrics: Vec<(String, Result<MetricScoreType, AnalysisError>)> = Vec::new();
    let ghost mut scores: Seq<(String, Result<MetricScoreType, AnalysisError>)> = Seq::empty();
    let mut i: usize = 0;
    while i < hierarchical_analysis.metrics.len()
        invariant
            i <= hierarchical_analysis.metrics.len(),
            h == hierarchical_analysis,
            scores.len() == i,
            forall|j: int|
                0 <= j < i ==> (#[trigger] scores[j]).0@ == V::key_of(
                    hierarchical_analysis.metrics@[j].model(),
                ) && score_view(scores[j].1) == V::score_of(
                    hierarchical_analysis.metrics@[j].model(),
                ),
            metrics@ == collect_entries(scores),
        decreases hierarchical_analysis.metrics.len() - i,
    {
        let metric = &hierarchical_analysis.metrics[i];
        let key = metric.get_key().to_owned();
        let score = metric.get_score();
        let ghost before = scores;
        proof {
            scores = scores.push((key, score));
            assert(scores.drop_last() =~= before);
            lemma_collect_entries(before);
        }
        insert_sorted(&mut metrics, key, score);
        i += 1;
    }
    proof {
        let f = |r: Result<MetricScoreType, AnalysisError>| score_view(r);
        lemma_collect_entries_model(scores, f);
        assert(scores.map_values(|e: (String, Result<MetricScoreType, AnalysisError>)| (e.0@, f(e.1)))
            =~= metric_scores::<V>(hv.metrics));
        assert(scores_view(metrics@) =~= collect_entries(scores).map_values(
            |e: (String, Result<MetricScoreType, AnalysisError>)| (e.0@, f(e.1)),
        ));
    }
    let folder_content = match hierarchical_analysis.folder_content {
        None => None,
        Some(content_entries) => {
            let ghost ce = content_entries;
            let mut rest = reverse_vec(content_entries);
            let mut out: Vec<(String, TopAnalysis)> = Vec::new();
            proof {
                assert(ce@.skip(0) =~= ce@);
                assert(rest@ =~= ce@.skip(0).reverse());
            }
            #[verifier::loop_isolation(false)]
            while rest.len() > 0
                invariant
                    rest@.len() <= ce@.len(),
                    rest@ == ce@.skip(ce@.len() - rest@.len()).reverse(),
                    top_entries_view(out@) == top_entries_model::<V>(
                        hierarchical_entries_view(ce@.take(ce@.len() - rest@.len())),
                    ),
                decreases rest@.len(),
            {
                let ghost k = ce@.len() - rest@.len();
                let ghost before = out@;
                let (analysis_key, analysis) = rest.pop().unwrap();
                proof {
                    assert(ce@.skip(k).reverse().last() == ce@[k]);
                    assert(rest@ =~= ce@.skip(k + 1).reverse());
                    assert(analysis == ce@[k].1);
                    assert(decreases_to!(h => h.folder_content));
                    assert(decreases_to!(h.folder_content => ce));
                    assert(decreases_to!(ce => ce@));
                    assert(decreases_to!(ce@ => ce@[k]));
                    assert(decreases_to!(ce@[k] => ce@[k].1));
                    assert(decreases_to!(h => analysis));
                }
                let t = build_top_analysis_structure(analysis);
                out.push((analysis_key, t));
                proof {
                    let tk = ce@.take(k + 1);
                    assert(tk.drop_last() =~= ce@.take(k));
                    lemma_hierarchical_entries_drop_last(tk);
                    assert(out@.drop_last() =~= before);
                }
            }
            proof {
                assert(ce@.take(ce@.len() as int) =~= ce@);
            }
            Some(out)
        },
    };
    TopAnalysis { file_name: hierarchical_analysis.file_name, metrics, folder_content }
}

/// The analysis of the folder `root` from the analyses of its files, as
/// `analysis_model` says.
pub fn build_analysis_from_file_analyses<V: IMetricValue>(
    root: &str,
    file_analyses: &Vec<FileAnalysis<V>>,
) -> (r: TopAnalysis)
    ensures
        top_view(r) == analysis_model::<V>(root@, file_analyses_view(file_analyses@)),
        top_sorted(top_view(r)),
{
    let root_name = match path_file_name_of(root) {
        Some(name) => name,
        None => String::new(),
    };
    let root_analysis: HierarchicalAnalysis<V> = HierarchicalAnalysis {
        file_name: root_name,
        metrics: Vec::new(),
        folder_content: Some(Vec::new()),
    };
    proof {
        assert(models(root_analysis.metrics@) =~= Seq::<V::Model>::empty());
        assert(hierarchical_entries_view(root_analysis.folder_content->0@) =~= Seq::<
            (Seq<char>, HNode<V::Model>),
        >::empty());
        assert(hierarchical_view(root_analysis) == empty_folder::<V::Model>(root_file_name(root@)));
    }
    let updated_root_analysis = build_hierarchical_analysis_structure(
        root_analysis,
        &keep_only_last_root_directory_in_analyses_file_names(file_analyses, root),
    );
    let r = build_top_analysis_structure(updated_root_analysis);
    proof {
        assert forall|p: Seq<Seq<char>>|
            #![trigger top_node_at(top_view(r), p)]
            match top_node_at(top_view(r), p) {
                Some(n) => (n.content matches Some(c) ==> keys_sorted(model_keys(c)))
                    && keys_sorted(model_keys(n.metrics)),
                None => true,
            } by {
            law_folders_are_sorted_and_named::<V>(root@, file_analyses_view(file_analyses@), p);
        }
    }
    r
}

/// The models of the values that were computed, in order, leaving out the
/// metrics that gave none.
pub open spec fn computed_models<V: IMetricValueClone>(values: Seq<Option<V>>) -> Seq<V::Model>
    decreases values.len(),
{
    if values.len() == 0 {
        Seq::empty()
    } else {
        computed_models(values.drop_last()) + match values.last() {
            Some(v) => seq![v.model()],
            None => Seq::empty(),
        }
    }
}

/// The models of the values of `values` that are there, in order.
pub open spec fn given_values<V: IMetricValueClone>(values: Seq<Option<V>>) -> Seq<V::Model> {
    values.filter(|o: Option<V>| o is Some).map_values(|o: Option<V>| o->0.model())
}

/// Keeping the computed values keeps every value that is there, in order,
/// whatever the other metrics gave: exactly the values that are there,
/// each value given for a file being among them.
pub proof fn law_computed_values_are_those_given<V: IMetricValueClone>(values: Seq<Option<V>>)
    ensures
        computed_models(values) == given_values(values),
        forall|j: int|
            0 <= j < values.len() && (#[trigger] values[j]) is Some ==> computed_models(
                values,
            ).contains(values[j]->0.model()),
    decreases values.len(),
{
    let p = |o: Option<V>| o is Some;
    let f = |o: Option<V>| o->0.model();
    if values.len() > 0 {
        let init = values.drop_last();
        law_computed_values_are_those_given::<V>(init);
        reveal_with_fuel(Seq::filter, 1);
        assert(values.filter(p) == if p(values.last()) {
            init.filter(p).push(values.last())
        } else {
            init.filter(p)
        });
        if values.last() is Some {
            assert(values.filter(p).map_values(f) =~= init.filter(p).map_values(f).push(
                f(values.last()),
            ));
            assert(computed_models(values) =~= computed_models(init) + seq![values.last()->0.model()]);
        } else {
            assert(computed_models(values) =~= computed_models(init));
        }
    } else {
        assert(values.filter(p) =~= Seq::<Option<V>>::empty());
        assert(given_values(values) =~= Seq::<V::Model>::empty());
    }
    assert forall|j: int| 0 <= j < values.len() && (#[trigger] values[j]) is Some implies computed_models(
        values,
    ).contains(values[j]->0.model()) by {
        values.lemma_filter_contains(p, j);
        let fl = values.filter(p);
        let k = choose|k: int| 0 <= k < fl.len() && fl[k] == values[j];
        assert(computed_models(values) == fl.map_values(f));
        assert(fl.map_values(f)[k] == values[j]->0.model());
        assert(fl.map_values(f).contains(values[j]->0.model()));
    }
}

/// The values that were computed, in order, leaving out the metrics that
/// gave none.
pub fn keep_computed_values<V: IMetricValue>(values: &Vec<Option<V>>) -> (r: Vec<V>)
    ensures
        models(r@) == computed_models(values@),
        models(r@) == given_values(values@),
        forall|j: int|
            0 <= j < values@.len() && (#[trigger] values@[j]) is Some ==> models(r@).contains(
                values@[j]->0.model(),
            ),
{
    proof {
        law_computed_values_are_those_given::<V>(values@);
    }
    let mut out: Vec<V> = Vec::new();
    let mut i: usize = 0;
    proof {
        assert(values@.take(0) =~= Seq::<Option<V>>::empty());
        assert(models(out@) =~= Seq::<V::Model>::empty());
    }
    while i < values.len()
        invariant
            i <= values.len(),
            models(out@) == computed_models(values@.take(i as int)),
        decreases values.len() - i,
    {
        let ghost before = out@;
        proof {
            assert(values@.take(i + 1).drop_last() =~= values@.take(i as int));
            assert(values@.take(i + 1).last() == values@[i as int]);
        }
        match &values[i] {
            Some(v) => {
                let x = v.clone_box();
                out.push(x);
                proof {
                    assert(models(out@) =~= models(before) + seq![x.model()]);
                }
            },
            None => {
                assert(models(before) + Seq::<V::Model>::empty() =~= models(before));
            },
        }
        i += 1;
    }
    proof {
        assert(values@.take(values.len() as int) =~= values@);
    }
    out
}

/// Whether `ms` are the values that `metrics` give for the file at `path`:
/// one result of each metric for that file, in the order of the metrics,
/// those that gave none left out.
pub open spec fn given_by<M: IMetric>(
    metrics: Seq<M>,
    path: Seq<char>,
    ms: Seq<<M::Value as IMetricValueClone>::Model>,
) -> bool {
    exists|values: Seq<Option<M::Value>>|
        #![trigger computed_models(values)]
        values.len() == metrics.len() && (forall|j: int|
            0 <= j < metrics.len() ==> #[trigger] metrics[j].gives(path, values[j])) && ms
            == computed_models(values)
}

/// Whether `fas` are the analyses of the files `files` with `metrics`: for
/// each file in order, its path and the values the metrics give for it.
pub open spec fn analysed_from<M: IMetric>(
    metrics: Seq<M>,
    files: Seq<String>,
    fas: Seq<(Seq<char>, Seq<<M::Value as IMetricValueClone>::Model>)>,
) -> bool {
    &&& fas.len() == files.len()
    &&& forall|i: int|
        0 <= i < files.len() ==> #[trigger] fas[i].0 == files[i]@ && given_by(
            metrics,
            files[i]@,
            fas[i].1,
        )
}

/// The values that the metrics give for one file, in the order of the
/// metrics, leaving out those that give none.
pub fn get_file_metrics_value<M: IMetric>(current_file: &str, metrics: &Vec<M>) -> (r: Vec<
    M::Value,
>)
    ensures
        given_by(metrics@, current_file@, models(r@)),
{
    let mut values: Vec<Option<M::Value>> = Vec::new();
    let mut i: usize = 0;
    while i < metrics.len()
        invariant
            i <= metrics.len(),
            values@.len() == i,
            forall|j: int| 0 <= j < i ==> #[trigger] metrics@[j].gives(current_file@, values@[j]),
        decreases metrics.len() - i,
    {
        let v = metrics[i].analyse(current_file);
        values.push(v);
        assert(values@[i as int] == v);
        i += 1;
    }
    let r = keep_computed_values(&values);
    assert(values@.len() == metrics@.len() && models(r@) == computed_models(values@));
    r
}

/// The analysis of one file: its path and the values the metrics give for it.
pub fn analyse_single_file<M: IMetric>(current_file: &String, metrics: &Vec<M>) -> (r: FileAnalysis<
    M::Value,
>)
    ensures
        r.file_path@ == current_file@,
        given_by(metrics@, current_file@, models(r.metrics@)),
{
    let result_file_metrics = get_file_metrics_value(current_file.as_str(), metrics);
    FileAnalysis { file_path: current_file.clone(), metrics: result_file_metrics }
}

/// The analyses of the files, in their order.
pub fn analyse_all_files<M: IMetric>(files_to_analyse: Vec<String>, metrics: &Vec<M>) -> (r: Vec<
    FileAnalysis<M::Value>,
>)
    ensures
        analysed_from(metrics@, files_to_analyse@, file_analyses_view(r@)),
{
    let mut out: Vec<FileAnalysis<M::Value>> = Vec::new();
    let mut i: usize = 0;
    while i < files_to_analyse.len()
        invariant
            i <= files_to_analyse.len(),
            out@.len() == i,
            forall|j: int|
                0 <= j < i ==> #[trigger] out@[j].file_path@ == files_to_analyse@[j]@ && given_by(
                    metrics@,
                    files_to_analyse@[j]@,
                    models(out@[j].metrics@),
                ),
        decreases files_to_analyse.len() - i,
    {
        let fa = analyse_single_file(&files_to_analyse[i], metrics);
        out.push(fa);
        i += 1;
    }
    proof {
        let fas = file_analyses_view(out@);
        assert forall|j: int| 0 <= j < files_to_analyse@.len() implies #[trigger] fas[j].0
            == files_to_analyse@[j]@ && given_by(metrics@, files_to_analyse@[j]@, fas[j].1) by {
            assert(fas[j] == (out@[j].file_path@, models(out@[j].metrics@)));
        }
    }
    out
}

/// The analysis of the folder `root`: the files that the explorer finds,
/// each analysed with every metric, then combined as
/// `build_analysis_from_file_analyses` does.
pub fn do_internal_analysis<F: IFileExplorer, M: IMetric>(
    root: &str,
    file_explorer: &F,
    metrics: &Vec<M>,
) -> (r: TopAnalysis)
    ensures
        exists|files: Seq<String>, fas: Seq<(Seq<char>, Seq<<M::Value as IMetricValueClone>::Model>)>|
            #![trigger file_explorer.finds(files), analysed_from(metrics@, files, fas)]
            file_explorer.finds(files) && analysed_from(metrics@, files, fas) && top_view(r)
                == analysis_model::<M::Value>(root@, fas),
        top_sorted(top_view(r)),
{
    let files_to_analyse = file_explorer.discover();
    let ghost files = files_to_analyse@;
    let file_analyses = analyse_all_files(files_to_analyse, metrics);
    let r = build_analysis_from_file_analyses(root, &file_analyses);
    assert(file_explorer.finds(files) && analysed_from(metrics@, files, file_analyses_view(file_analyses@)));
    r
}

/// The metric values of a list of files summarised: the values of each file
/// combined, in order, into those of the files before it.
pub open spec fn metrics_summary<V: IMetricValue>(files: Seq<Seq<V::Model>>) -> Seq<V::Model>
    decreases files.len(),
{
    if files.len() == 0 {
        Seq::empty()
    } else {
        combine_metrics_model::<V>(metrics_summary::<V>(files.drop_last()), files.last())
    }
}

/// The values of one metric aggregated in order: the first value, with each
/// next one aggregated into the result.
pub open spec fn aggregate_all<V: IMetricValue>(vs: Seq<V::Model>) -> V::Model
    decreases vs.len(),
{
    if vs.len() <= 1 {
        vs[0]
    } else {
        V::aggregated(aggregate_all::<V>(vs.drop_last()), vs.last())
    }
}

/// When every file has one value of a metric whose values all bear the name
/// `key`, the summary is the one value that aggregates them in order.
pub proof fn lemma_summary_of_one_metric<V: IMetricValue>(files: Seq<Seq<V::Model>>, key: Seq<char>)
    requires
        files.len() > 0,
        forall|i: int| 0 <= i < files.len() ==> (#[trigger] files[i]).len() == 1,
        forall|m: V::Model| #[trigger] V::key_of(m) == key,
    ensures
        metrics_summary::<V>(files) == seq![
            aggregate_all::<V>(files.map_values(|f: Seq<V::Model>| f[0])),
        ],
    decreases files.len(),
{
    let vs = files.map_values(|f: Seq<V::Model>| f[0]);
    let x = files.last()[0];
    assert(files.last() =~= seq![x]);
    assert(files[files.len() - 1].len() == 1);
    reveal_with_fuel(Seq::filter, 2);
    if files.len() == 1 {
        let none = Seq::<V::Model>::empty();
        assert(files.drop_last() =~= Seq::<Seq<V::Model>>::empty());
        assert(!has_key::<V>(none, V::key_of(x)));
        assert(seq![x].filter(missing_from::<V>(none)) =~= seq![x]);
        assert(none.map_values(aggregate_with_first::<V>(seq![x])) =~= none);
        assert(vs[0] == x);
        assert(metrics_summary::<V>(files.drop_last()) == none);
        assert(metrics_summary::<V>(files) == combine_metrics_model::<V>(none, files.last()));
        assert(combine_metrics_model::<V>(none, seq![x]) =~= seq![x]);
        assert(aggregate_all::<V>(vs) == x);
    } else {
        let init = files.drop_last();
        assert forall|i: int| 0 <= i < init.len() implies (#[trigger] init[i]).len() == 1 by {
            assert(init[i] == files[i]);
        }
        lemma_summary_of_one_metric::<V>(init, key);
        let y = aggregate_all::<V>(init.map_values(|f: Seq<V::Model>| f[0]));
        assert(init.map_values(|f: Seq<V::Model>| f[0]) =~= vs.drop_last());
        assert(vs.last() == x);
        assert(V::key_of(y) == key && V::key_of(x) == key);
        assert(has_key::<V>(seq![y], V::key_of(x))) by {
            assert(V::key_of(seq![y][0]) == V::key_of(x));
        }
        assert(seq![x].filter(missing_from::<V>(seq![y])) =~= Seq::<V::Model>::empty());
        assert(first_with_key::<V>(seq![x], V::key_of(y)) == Some(x));
        assert(seq![y].map_values(aggregate_with_first::<V>(seq![x])) =~= seq![V::aggregated(y, x)]);
        assert(metrics_summary::<V>(files) == combine_metrics_model::<V>(seq![y], files.last()));
        assert(combine_metrics_model::<V>(seq![y], seq![x]) =~= seq![V::aggregated(y, x)]);
        assert(aggregate_all::<V>(vs) == V::aggregated(y, x));
    }
}

proof fn lemma_filter_none<A>(s: Seq<A>, pred: spec_fn(A) -> bool)
    requires
        forall|i: int| 0 <= i < s.len() ==> !pred(#[trigger] s[i]),
    ensures
        s.filter(pred) == Seq::<A>::empty(),
    decreases s.len(),
{
    reveal_with_fuel(Seq::filter, 1);
    if s.len() > 0 {
        assert forall|i: int| 0 <= i < s.drop_last().len() implies !pred(#[trigger] s.drop_last()[i]) by {
            assert(s.drop_last()[i] == s[i]);
        }
        lemma_filter_none(s.drop_last(), pred);
        assert(!pred(s[s.len() - 1]));
    } else {
        assert(s.filter(pred) =~= Seq::<A>::empty());
    }
}

/// The values of the metric at position `j` of each file.
pub open spec fn values_at<M>(files: Seq<Seq<M>>, j: int) -> Seq<M> {
    files.map_values(|f: Seq<M>| f[j])
}

/// When every file has one value of each of the metrics named `keys` (no name
/// twice), in that order, and aggregating keeps a value's name, the summary
/// holds, for each metric in that order, the aggregate of the files' values
/// of that metric.
pub proof fn law_summary_per_metric<V: IMetricValue>(
    files: Seq<Seq<V::Model>>,
    keys: Seq<Seq<char>>,
)
    requires
        files.len() > 0,
        keys.no_duplicates(),
        forall|i: int| 0 <= i < files.len() ==> (#[trigger] files[i]).len() == keys.len(),
        forall|i: int, j: int|
            0 <= i < files.len() && 0 <= j < keys.len() ==> V::key_of(#[trigger] files[i][j])
                == keys[j],
        forall|m: V::Model, o: V::Model| #[trigger] V::key_of(V::aggregated(m, o)) == V::key_of(m),
    ensures
        metrics_summary::<V>(files).len() == keys.len(),
        forall|j: int|
            0 <= j < keys.len() ==> #[trigger] metrics_summary::<V>(files)[j] == aggregate_all::<V>(
                values_at(files, j),
            ),
    decreases files.len(),
{
    let x = files.last();
    let init = files.drop_last();
    assert(files[files.len() - 1] == x);
    assert(metrics_summary::<V>(files) == combine_metrics_model::<V>(metrics_summary::<V>(init), x));
    if files.len() == 1 {
        let none = Seq::<V::Model>::empty();
        assert(init =~= Seq::<Seq<V::Model>>::empty());
        assert(metrics_summary::<V>(init) == none);
        assert(forall|o: V::Model| #[trigger] missing_from::<V>(none)(o)) by {
            assert forall|o: V::Model| #[trigger] missing_from::<V>(none)(o) by {
                if has_key::<V>(none, V::key_of(o)) {
                    let i = choose|i: int| 0 <= i < none.len() && V::key_of(none[i]) == V::key_of(o);
                }
            }
        }
        reveal_with_fuel(Seq::filter, 1);
        lemma_filter_all_models::<V>(x, missing_from::<V>(none));
        assert(none.map_values(aggregate_with_first::<V>(x)) =~= none);
        assert(combine_metrics_model::<V>(none, x) =~= x);
        assert forall|j: int| 0 <= j < keys.len() implies #[trigger] metrics_summary::<V>(files)[j]
            == aggregate_all::<V>(values_at(files, j)) by {
            assert(values_at(files, j).len() == 1);
            assert(values_at(files, j)[0] == x[j]);
        }
    } else {
        assert forall|i: int| 0 <= i < init.len() implies (#[trigger] init[i]).len() == keys.len() by {
            assert(init[i] == files[i]);
        }
        assert forall|i: int, j: int|
            0 <= i < init.len() && 0 <= j < keys.len() implies V::key_of(#[trigger] init[i][j])
                == keys[j] by {
            assert(init[i] == files[i]);
        }
        law_summary_per_metric::<V>(init, keys);
        let prev = metrics_summary::<V>(init);
        assert forall|j: int| 0 <= j < keys.len() implies V::key_of(#[trigger] prev[j]) == keys[j] by {
            lemma_aggregate_all_key::<V>(values_at(init, j), keys[j]);
        }
        assert forall|j: int| 0 <= j < keys.len() implies #[trigger] first_with_key::<V>(x, keys[j])
            == Some(x[j]) by {
            assert forall|k: int| 0 <= k < j implies V::key_of(#[trigger] x[k]) != keys[j] by {
                assert(V::key_of(x[k]) == keys[k]);
            }
            lemma_first_with_key::<V>(x, keys[j], j);
        }
        assert forall|k: int| 0 <= k < x.len() implies !missing_from::<V>(prev)(#[trigger] x[k]) by {
            assert(V::key_of(prev[k]) == keys[k]);
            assert(V::key_of(x[k]) == keys[k]);
        }
        lemma_filter_none(x, missing_from::<V>(prev));
        assert forall|j: int| 0 <= j < keys.len() implies #[trigger] metrics_summary::<V>(files)[j]
            == aggregate_all::<V>(values_at(files, j)) by {
            assert(values_at(files, j).drop_last() =~= values_at(init, j));
            assert(values_at(files, j).last() == x[j]);
            assert(prev.map_values(aggregate_with_first::<V>(x))[j] == V::aggregated(prev[j], x[j]));
        }
    }
}

proof fn lemma_filter_all_models<V: IMetricValue>(s: Seq<V::Model>, pred: spec_fn(V::Model) -> bool)
    requires
        forall|o: V::Model| #[trigger] pred(o),
    ensures
        s.filter(pred) == s,
    decreases s.len(),
{
    reveal_with_fuel(Seq::filter, 1);
    if s.len() > 0 {
        lemma_filter_all_models::<V>(s.drop_last(), pred);
        assert(pred(s.last()));
        assert(s.drop_last().push(s.last()) =~= s);
    } else {
        assert(s.filter(pred) =~= s);
    }
}

proof fn lemma_aggregate_all_key<V: IMetricValue>(vs: Seq<V::Model>, key: Seq<char>)
    requires
        vs.len() > 0,
        forall|i: int| 0 <= i < vs.len() ==> V::key_of(#[trigger] vs[i]) == key,
        forall|m: V::Model, o: V::Model| #[trigger] V::key_of(V::aggregated(m, o)) == V::key_of(m),
    ensures
        V::key_of(aggregate_all::<V>(vs)) == key,
    decreases vs.len(),
{
    if vs.len() > 1 {
        assert forall|i: int| 0 <= i < vs.drop_last().len() implies V::key_of(#[trigger] vs.drop_last()[i]) == key by {
            assert(vs.drop_last()[i] == vs[i]);
        }
        lemma_aggregate_all_key::<V>(vs.drop_last(), key);
    } else {
        assert(vs[0] == vs[vs.len() - 1]);
    }
}

/// The metric values of each file analysis.
pub open spec fn file_metrics<M>(fas: Seq<(Seq<char>, Seq<M>)>) -> Seq<Seq<M>> {
    fas.map_values(|f: (Seq<char>, Seq<M>)| f.1)
}

proof fn lemma_chain_metrics<M>(c: Seq<Seq<char>>, m: Seq<M>)
    ensures
        chain_model(c, m).metrics == m,
    decreases c.len(),
{
}

proof fn lemma_fold_metrics<V: IMetricValue>(
    root: HNode<V::Model>,
    fas: Seq<(Seq<char>, Seq<V::Model>)>,
)
    requires
        root.metrics == Seq::<V::Model>::empty(),
    ensures
        fold_model::<V>(root, fas).metrics == metrics_summary::<V>(file_metrics(fas)),
        fold_model::<V>(root, fas).name == root.name,
    decreases fas.len(),
{
    if fas.len() > 0 {
        lemma_fold_metrics::<V>(root, fas.drop_last());
        lemma_chain_metrics(path_components(fas.last().0), fas.last().1);
        assert(file_metrics(fas).drop_last() =~= file_metrics(fas.drop_last()));
    } else {
        assert(file_metrics(fas) =~= Seq::<Seq<V::Model>>::empty());
    }
}

/// The analysed folder carries the summary of the metric values of all the
/// files under it (the files whose path components begin with the folder's),
/// and
/// is shown under the folder's file name.
pub proof fn law_root_summarises_all_files<V: IMetricValue>(
    root: Seq<char>,
    fas: Seq<(Seq<char>, Seq<V::Model>)>,
)
    ensures
        analysis_model::<V>(root, fas).name == root_file_name(root),
        analysis_model::<V>(root, fas).metrics == collect_model(
            metric_scores::<V>(
                metrics_summary::<V>(file_metrics(fas.filter(is_under_root::<V::Model>(root)))),
            ),
        ),
{
    let renamed = renamed_under_root(fas, root);
    lemma_fold_metrics::<V>(empty_folder(root_file_name(root)), renamed);
    assert(file_metrics(renamed) =~= file_metrics(fas.filter(is_under_root::<V::Model>(root))));
}

} // verus!
