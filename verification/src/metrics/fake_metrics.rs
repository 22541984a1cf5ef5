//! Metrics with fixed values, to analyse folders without reading any file:
//! a metric named `fake<n>` whose value is always `n`, and a metric whose
//! analysis always fails.
use crate::metrics::metric::{
    AnalysisError, IMetric, IMetricValue, IMetricValueClone, MetricScoreType, MetricValueType,
    ValueModel, value_view,
};
use crate::analysis_module::analysis::{aggregate_all, law_summary_per_metric, metrics_summary, values_at};
use crate::text::{concat, decimal, u64_to_decimal};
use vstd::prelude::*;

verus! {

/// The metric named `fake<value>` that gives `value` for every file.
#[derive(Debug)]
pub struct FakeMetric {
    metric_key: String,
    value: u64,
}

impl FakeMetric {
    pub closed spec fn key_view(&self) -> Seq<char> {
        self.metric_key@
    }

    pub closed spec fn value_view(&self) -> u64 {
        self.value
    }

    pub fn new(value: u64) -> (r: FakeMetric)
        ensures
            r.key_view() == "fake"@ + decimal(value as nat),
            r.value_view() == value,
    {
        let digits = u64_to_decimal(value);
        FakeMetric { metric_key: concat("fake", digits.as_str()), value }
    }
}

impl IMetric for FakeMetric {
    type Value = FakeMetricValue;

    /// Every file gets the metric's name and number.
    open spec fn gives(&self, file_path: Seq<char>, value: Option<FakeMetricValue>) -> bool {
        value matches Some(v) && v.model() == (self.key_view(), self.value_view())
    }

    fn analyse(&self, _file_path: &str) -> (r: Option<FakeMetricValue>) {
        Some(FakeMetricValue { metric_key: self.metric_key.clone(), value: self.value })
    }
}

/// A value of a `FakeMetric`.
#[derive(Debug)]
pub struct FakeMetricValue {
    pub metric_key: String,
    pub value: u64,
}

impl FakeMetricValue {
    /// This value plus the number carried by the value of another metric
    /// (modulo 2^64, as the release build of `+` on `u64` does), or this value
    /// alone when the other carries no number.
    pub fn aggregate_with_value(&self, other: Result<MetricValueType, AnalysisError>) -> (r:
        FakeMetricValue)
        ensures
            r.model() == (self.model().0, match value_view(other) {
                Ok(ValueModel::Number(n)) => self.value.wrapping_add(n),
                _ => self.value,
            }),
    {
        let count = match other {
            Ok(MetricValueType::Number(count)) => count,
            _ => 0,
        };
        FakeMetricValue { metric_key: self.metric_key.clone(), value: self.value.wrapping_add(count) }
    }
}

impl IMetricValueClone for FakeMetricValue {
    type Model = (Seq<char>, u64);

    open spec fn model(&self) -> (Seq<char>, u64) {
        (self.metric_key@, self.value)
    }

    fn clone_box(&self) -> (r: Self) {
        FakeMetricValue { metric_key: self.metric_key.clone(), value: self.value }
    }
}

impl IMetricValue for FakeMetricValue {
    open spec fn key_of(m: (Seq<char>, u64)) -> Seq<char> {
        m.0
    }

    open spec fn score_of(m: (Seq<char>, u64)) -> Result<u64, Seq<char>> {
        Ok(m.1)
    }

    open spec fn value_of(m: (Seq<char>, u64)) -> Result<ValueModel, Seq<char>> {
        Ok(ValueModel::Number(m.1))
    }

    open spec fn aggregated(m: (Seq<char>, u64), other: (Seq<char>, u64)) -> (Seq<char>, u64) {
        (m.0, m.1.wrapping_add(other.1))
    }

    fn get_key(&self) -> (r: &str) {
        self.metric_key.as_str()
    }

    fn get_score(&self) -> (r: Result<MetricScoreType, AnalysisError>) {
        Ok(MetricScoreType::Score(self.value))
    }

    fn get_value(&self) -> (r: Result<MetricValueType, AnalysisError>) {
        Ok(MetricValueType::Number(self.value))
    }

    proof fn lemma_aggregated_keeps_key(m: (Seq<char>, u64), other: (Seq<char>, u64)) {
    }

    fn aggregate(&self, other: Self) -> (r: Self) {
        self.aggregate_with_value(other.get_value())
    }
}

/// The metric named `broken` whose analysis always fails.
#[derive(Debug)]
pub struct BrokenMetric {}

impl BrokenMetric {
    pub fn new() -> (r: BrokenMetric) {
        BrokenMetric {  }
    }
}

impl IMetric for BrokenMetric {
    type Value = BrokenMetricValue;

    /// Every file gets the broken value.
    open spec fn gives(&self, file_path: Seq<char>, value: Option<BrokenMetricValue>) -> bool {
        value is Some
    }

    fn analyse(&self, _file_path: &str) -> (r: Option<BrokenMetricValue>) {
        Some(BrokenMetricValue {  })
    }
}

/// The value of a `BrokenMetric`: the error "Analysis error".
#[derive(Debug)]
pub struct BrokenMetricValue {}

impl IMetricValueClone for BrokenMetricValue {
    type Model = ();

    open spec fn model(&self) -> () {
        ()
    }

    fn clone_box(&self) -> (r: Self) {
        BrokenMetricValue {  }
    }
}

impl IMetricValue for BrokenMetricValue {
    open spec fn key_of(m: ()) -> Seq<char> {
        "broken"@
    }

    open spec fn score_of(m: ()) -> Result<u64, Seq<char>> {
        Err("Analysis error"@)
    }

    open spec fn value_of(m: ()) -> Result<ValueModel, Seq<char>> {
        Err("Analysis error"@)
    }

    open spec fn aggregated(m: (), other: ()) -> () {
        ()
    }

    fn get_key(&self) -> (r: &str) {
        "broken"
    }

    fn get_score(&self) -> (r: Result<MetricScoreType, AnalysisError>) {
        Err("Analysis error".to_owned())
    }

    fn get_value(&self) -> (r: Result<MetricValueType, AnalysisError>) {
        Err("Analysis error".to_owned())
    }

    proof fn lemma_aggregated_keeps_key(m: (), other: ()) {
    }

    fn aggregate(&self, _other: Self) -> (r: Self) {
        BrokenMetricValue {  }
    }
}

/// The sum of numbers, modulo 2^64.
pub open spec fn wrapping_total(ns: Seq<u64>) -> u64
    decreases ns.len(),
{
    if ns.len() == 0 {
        0
    } else {
        wrapping_total(ns.drop_last()).wrapping_add(ns.last())
    }
}

proof fn lemma_aggregate_all_fake(vs: Seq<(Seq<char>, u64)>)
    requires
        vs.len() > 0,
    ensures
        aggregate_all::<FakeMetricValue>(vs) == (vs[0].0, wrapping_total(
            vs.map_values(|m: (Seq<char>, u64)| m.1),
        )),
    decreases vs.len(),
{
    let ns = vs.map_values(|m: (Seq<char>, u64)| m.1);
    if vs.len() == 1 {
        assert(ns.len() == 1);
        assert(ns.drop_last() =~= Seq::<u64>::empty());
        assert(wrapping_total(ns.drop_last()) == 0);
        assert(ns.last() == vs[0].1);
        assert(wrapping_total(ns) == 0u64.wrapping_add(vs[0].1));
    } else {
        lemma_aggregate_all_fake(vs.drop_last());
        assert(vs.drop_last().map_values(|m: (Seq<char>, u64)| m.1) =~= ns.drop_last());
        assert(vs.drop_last()[0] == vs[0]);
        assert(ns.last() == vs.last().1);
    }
}

/// With several fake metrics of different names, every file giving one value
/// of each, in the same order, the summary gives each metric the sum of its
/// files' numbers (modulo 2^64), under its name.
pub proof fn law_fake_metrics_sum_per_name(
    files: Seq<Seq<(Seq<char>, u64)>>,
    keys: Seq<Seq<char>>,
)
    requires
        files.len() > 0,
        keys.no_duplicates(),
        forall|i: int| 0 <= i < files.len() ==> (#[trigger] files[i]).len() == keys.len(),
        forall|i: int, j: int|
            0 <= i < files.len() && 0 <= j < keys.len() ==> (#[trigger] files[i][j]).0 == keys[j],
    ensures
        metrics_summary::<FakeMetricValue>(files).len() == keys.len(),
        forall|j: int|
            0 <= j < keys.len() ==> #[trigger] metrics_summary::<FakeMetricValue>(files)[j] == (
                keys[j],
                wrapping_total(values_at(files, j).map_values(|m: (Seq<char>, u64)| m.1)),
            ),
{
    law_summary_per_metric::<FakeMetricValue>(files, keys);
    assert forall|j: int| 0 <= j < keys.len() implies #[trigger] metrics_summary::<FakeMetricValue>(
        files,
    )[j] == (keys[j], wrapping_total(values_at(files, j).map_values(|m: (Seq<char>, u64)| m.1))) by {
        lemma_aggregate_all_fake(values_at(files, j));
        assert(values_at(files, j)[0] == files[0][j]);
    }
}

} // verus!
