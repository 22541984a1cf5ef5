//! JSON values, and the JSON form of an analysis: every item is an object
//! with one entry, its name, whose value holds its metrics and, for a folder,
//! the analyses of its content.
use crate::analysis_module::analysis::{TNode, TopAnalysis, top_view, top_entries_view};
use crate::metrics::metric::{AnalysisError, MetricScoreType, score_view};
use vstd::prelude::*;

verus! {

/// A JSON value; an object lists its entries in order.
#[derive(Debug, PartialEq)]
pub enum JsonValue {
    Number(u64),
    Str(String),
    Array(Vec<JsonValue>),
    Object(Vec<(String, JsonValue)>),
}

/// The mathematical content of a `JsonValue`.
pub enum JsonModel {
    Number(u64),
    Str(Seq<char>),
    Array(Seq<JsonModel>),
    Object(Seq<(Seq<char>, JsonModel)>),
}

pub open spec fn json_view(j: JsonValue) -> JsonModel
    decreases j,
{
    match j {
        JsonValue::Number(n) => JsonModel::Number(n),
        JsonValue::Str(s) => JsonModel::Str(s@),
        JsonValue::Array(v) => JsonModel::Array(json_values_view(v@)),
        JsonValue::Object(v) => JsonModel::Object(json_entries_view(v@)),
    }
}

pub open spec fn json_values_view(s: Seq<JsonValue>) -> Seq<JsonModel>
    decreases s,
{
    if s.len() == 0 {
        Seq::empty()
    } else {
        json_values_view(s.drop_last()).push(json_view(s.last()))
    }
}

pub open spec fn json_entries_view(s: Seq<(String, JsonValue)>) -> Seq<(Seq<char>, JsonModel)>
    decreases s,
{
    if s.len() == 0 {
        Seq::empty()
    } else {
        json_entries_view(s.drop_last()).push((s.last().0@, json_view(s.last().1)))
    }
}

/// The JSON value of a metric score: the number, or the text "Analysis
/// error" in place of any error.
pub open spec fn score_json(s: Result<u64, Seq<char>>) -> JsonModel {
    match s {
        Ok(n) => JsonModel::Number(n),
        Err(_) => JsonModel::Str("Analysis error"@),
    }
}

/// The entries of the JSON object of the metrics of an analysis.
pub open spec fn metrics_json(m: Seq<(Seq<char>, Result<u64, Seq<char>>)>) -> Seq<
    (Seq<char>, JsonModel),
> {
    m.map_values(|e: (Seq<char>, Result<u64, Seq<char>>)| (e.0, score_json(e.1)))
}

/// The JSON form of an analysis: `{name: {"metrics": {..}}}` for a file, and
/// `{name: {"folder_content": [..], "metrics": {..}}}` for a folder,
/// its content listed in order.
pub open spec fn analysis_json(t: TNode) -> JsonModel
    decreases t,
{
    match t.content {
        Some(c) => JsonModel::Object(
            seq![
                (
                    t.name,
                    JsonModel::Object(
                        seq![
                            ("folder_content"@, JsonModel::Array(content_json(c))),
                            ("metrics"@, JsonModel::Object(metrics_json(t.metrics))),
                        ],
                    ),
                ),
            ],
        ),
        None => JsonModel::Object(
            seq![
                (
                    t.name,
                    JsonModel::Object(
                        seq![("metrics"@, JsonModel::Object(metrics_json(t.metrics)))],
                    ),
                ),
            ],
        ),
    }
}

/// The JSON forms of the analyses of a folder's content, in order.
pub open spec fn content_json(c: Seq<(Seq<char>, TNode)>) -> Seq<JsonModel>
    decreases c,
{
    if c.len() == 0 {
        Seq::empty()
    } else {
        content_json(c.drop_last()).push(analysis_json(c.last().1))
    }
}

/// The JSON form of an analysis is one entry named as the analysed item,
/// whose last field is "metrics": an object holding, for each metric of the
/// item in order, its name with every score `n` shown as the number `n`,
/// and the text "Analysis error" exactly in place of an error.
pub proof fn law_json_shows_every_score(t: TNode)
    ensures
        match analysis_json(t) {
            JsonModel::Object(top) => top.len() == 1 && top[0].0 == t.name && match top[0].1 {
                JsonModel::Object(fields) => fields.len() > 0 && fields.last() == (
                    "metrics"@,
                    JsonModel::Object(metrics_json(t.metrics)),
                ),
                _ => false,
            },
            _ => false,
        },
        metrics_json(t.metrics).len() == t.metrics.len(),
        forall|i: int|
            0 <= i < t.metrics.len() ==> (#[trigger] metrics_json(t.metrics)[i]).0 == t.metrics[i].0
                && match t.metrics[i].1 {
                Ok(n) => metrics_json(t.metrics)[i].1 == JsonModel::Number(n),
                Err(_) => metrics_json(t.metrics)[i].1 == JsonModel::Str("Analysis error"@),
            },
        forall|i: int|
            0 <= i < t.metrics.len() && (#[trigger] metrics_json(t.metrics)[i]).1 == JsonModel::Str(
                "Analysis error"@,
            ) ==> t.metrics[i].1 is Err,
{
}

proof fn lemma_top_entries_view_push(s: Seq<(String, TopAnalysis)>, i: int)
    requires
        0 <= i < s.len(),
    ensures
        top_entries_view(s.take(i + 1)) == top_entries_view(s.take(i)).push(
            (s[i].0@, top_view(s[i].1)),
        ),
{
    let t = s.take(i + 1);
    assert(t.drop_last() =~= s.take(i));
}

/// The entries of the JSON object of the metrics of `folder`, in order: each
/// score as a number, each error as the text "Analysis error".
pub fn build_analysis_metrics_for_json(folder: &TopAnalysis) -> (r: Vec<(String, JsonValue)>)
    ensures
        json_entries_view(r@) == metrics_json(top_view(*folder).metrics),
{
    let ghost m = top_view(*folder).metrics;
    let mut out: Vec<(String, JsonValue)> = Vec::new();
    let mut i: usize = 0;
    proof {
        assert(metrics_json(m).take(0) =~= Seq::<(Seq<char>, JsonModel)>::empty());
    }
    while i < folder.metrics.len()
        invariant
            i <= folder.metrics.len(),
            m == top_view(*folder).metrics,
            m.len() == folder.metrics@.len(),
            json_entries_view(out@) == metrics_json(m).take(i as int),
        decreases folder.metrics.len() - i,
    {
        let (key, score) = &folder.metrics[i];
        let value = match score {
            Ok(MetricScoreType::Score(n)) => JsonValue::Number(*n),
            Err(_) => JsonValue::Str("Analysis error".to_owned()),
        };
        let ghost before = out@;
        let k = key.clone();
        assert(k@ == key@);
        out.push((k, value));
        proof {
            assert(m[i as int] == (key@, score_view(*score)));
            assert(json_view(value) == score_json(score_view(*score)));
            assert(out@.drop_last() =~= before);
            assert(metrics_json(m).take(i + 1) =~= metrics_json(m).take(i as int).push(
                (key@, score_json(score_view(*score))),
            ));
        }
        i += 1;
    }
    proof {
        assert(metrics_json(m).take(m.len() as int) =~= metrics_json(m));
    }
    out
}

/// The JSON form of an analysis, as `analysis_json` says.
pub fn convert_analysis_to_json(analysis: &TopAnalysis) -> (r: JsonValue)
    ensures
        json_view(r) == analysis_json(top_view(*analysis)),
    decreases analysis,
{
    let metrics = JsonValue::Object(build_analysis_metrics_for_json(analysis));
    let body = match &analysis.folder_content {
        Some(content) => {
            let ghost c = top_entries_view(content@);
            let mut items: Vec<JsonValue> = Vec::new();
            let mut i: usize = 0;
            proof {
                assert(content@.take(0) =~= Seq::<(String, TopAnalysis)>::empty());
            }
            while i < content.len()
                invariant
                    i <= content.len(),
                    analysis.folder_content == Some(*content),
                    json_values_view(items@) == content_json(top_entries_view(content@.take(i as int))),
                decreases content.len() - i,
            {
                proof {
                    assert(decreases_to!(analysis => analysis.folder_content));
                    assert(decreases_to!(analysis.folder_content => analysis.folder_content->0));
                    assert(analysis.folder_content->0 == *content);
                    assert(decreases_to!(*content => content@));
                    assert(decreases_to!(content@ => content@[i as int]));
                    assert(decreases_to!(content@[i as int] => content@[i as int].1));
                }
                let item = convert_analysis_to_json(&content[i].1);
                let ghost before = items@;
                items.push(item);
                proof {
                    lemma_top_entries_view_push(content@, i as int);
                    assert(items@.drop_last() =~= before);
                    let prev = top_entries_view(content@.take(i as int));
                    let next = prev.push((content@[i as int].0@, top_view(content@[i as int].1)));
                    assert(next.drop_last() =~= prev);
                    assert(content_json(next) == content_json(prev).push(
                        analysis_json(top_view(content@[i as int].1)),
                    ));
                }
                i += 1;
            }
            proof {
                assert(content@.take(content.len() as int) =~= content@);
            }
            let entries = vec![
                ("folder_content".to_owned(), JsonValue::Array(items)),
                ("metrics".to_owned(), metrics),
            ];
            proof {
                reveal_with_fuel(json_entries_view, 3);
                assert(entries@.drop_last().drop_last() =~= Seq::<(String, JsonValue)>::empty());
                assert(json_entries_view(entries@) =~= seq![
                    ("folder_content"@, JsonModel::Array(content_json(c))),
                    ("metrics"@, json_view(metrics)),
                ]);
            }
            JsonValue::Object(entries)
        },
        None => {
            let entries = vec![("metrics".to_owned(), metrics)];
            proof {
                reveal_with_fuel(json_entries_view, 2);
                assert(entries@.drop_last() =~= Seq::<(String, JsonValue)>::empty());
                assert(json_entries_view(entries@) =~= seq![("metrics"@, json_view(metrics))]);
            }
            JsonValue::Object(entries)
        },
    };
    let name = analysis.file_name.clone();
    assert(name@ == analysis.file_name@);
    let entries = vec![(name, body)];
    proof {
        reveal_with_fuel(json_entries_view, 2);
        assert(entries@.drop_last() =~= Seq::<(String, JsonValue)>::empty());
        assert(json_entries_view(entries@) =~= seq![(analysis.file_name@, json_view(body))]);
    }
    JsonValue::Object(entries)
}

} // verus!
