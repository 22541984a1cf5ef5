//! The first form of the lines count metric: every file gets a value, and a
//! failed count keeps the text of its error in the score.
use crate::metrics::lines_count::{aggregate_line_count, aggregate_lines, count_lines, count_view, lines_in};
use crate::metrics::metric::{
    AnalysisError, IMetricValue, IMetricValueClone, MetricScoreType, MetricValueType,
    ValueModel,
};
use vstd::prelude::*;

verus! {

/// The lines count metric.
#[derive(Debug)]
pub struct LinesCountMetric {}

impl LinesCountMetric {
    pub fn new() -> (r: LinesCountMetric) {
        LinesCountMetric {  }
    }

    /// The value for a file: the count of its lines when its content could be
    /// read as text (`Some`), the error "Analysis error" otherwise.
    pub fn analyse_content(&self, content: Option<&str>) -> (r: LinesCountValue)
        ensures
            r.model() == match content {
                Some(c) => Ok(lines_in(c@) as u64),
                None => Err("Analysis error"@),
            },
    {
        match content {
            Some(c) => LinesCountValue { line_count: Ok(count_lines(c)) },
            None => LinesCountValue { line_count: Err("Analysis error".to_owned()) },
        }
    }
}

/// The lines count of an analysed item, or the error that stopped counting.
#[derive(Debug)]
pub struct LinesCountValue {
    pub line_count: Result<u64, AnalysisError>,
}

impl LinesCountValue {
    /// Aggregates this count with the value (or error) of another metric.
    pub fn aggregate_with_value(&self, other: Result<MetricValueType, AnalysisError>) -> (r:
        LinesCountValue)
        ensures
            r.model() == aggregate_lines(self.model(), crate::metrics::metric::value_view(other)),
    {
        LinesCountValue { line_count: aggregate_line_count(&self.line_count, other) }
    }

    /// A value of the same metric whose count is 0.
    pub fn create_clone_with_value_zero(&self) -> (r: LinesCountValue)
        ensures
            r.model() == Ok::<u64, Seq<char>>(0),
    {
        LinesCountValue { line_count: Ok(0) }
    }
}

impl IMetricValueClone for LinesCountValue {
    type Model = Result<u64, Seq<char>>;

    open spec fn model(&self) -> Result<u64, Seq<char>> {
        count_view(self.line_count)
    }

    fn clone_box(&self) -> (r: Self) {
        match &self.line_count {
            Ok(n) => LinesCountValue { line_count: Ok(*n) },
            Err(e) => LinesCountValue { line_count: Err(e.clone()) },
        }
    }
}

impl IMetricValue for LinesCountValue {
    open spec fn key_of(m: Result<u64, Seq<char>>) -> Seq<char> {
        "lines_count"@
    }

    /// The score keeps the text of the error.
    open spec fn score_of(m: Result<u64, Seq<char>>) -> Result<u64, Seq<char>> {
        m
    }

    open spec fn value_of(m: Result<u64, Seq<char>>) -> Result<ValueModel, Seq<char>> {
        match m {
            Ok(n) => Ok(ValueModel::Number(n)),
            Err(e) => Err(e),
        }
    }

    open spec fn aggregated(m: Result<u64, Seq<char>>, other: Result<u64, Seq<char>>) -> Result<
        u64,
        Seq<char>,
    > {
        aggregate_lines(m, Self::value_of(other))
    }

    fn get_key(&self) -> (r: &str) {
        "lines_count"
    }

    fn get_score(&self) -> (r: Result<MetricScoreType, AnalysisError>) {
        match &self.line_count {
            Ok(value) => Ok(MetricScoreType::Score(*value)),
            Err(error) => Err(error.clone()),
        }
    }

    fn get_value(&self) -> (r: Result<MetricValueType, AnalysisError>) {
        match &self.line_count {
            Ok(value) => Ok(MetricValueType::Number(*value)),
            Err(e) => Err(e.clone()),
        }
    }

    proof fn lemma_aggregated_keeps_key(m: Result<u64, Seq<char>>, other: Result<u64, Seq<char>>) {
    }

    fn aggregate(&self, other: Self) -> (r: Self) {
        self.aggregate_with_value(other.get_value())
    }
}

} // verus!
