//! The lines count metric: how many lines a file holds; a folder sums the
//! counts of its files.
use crate::metrics::metric::{
    AnalysisError, IMetricValue, IMetricValueClone, MetricScoreType, MetricValueType, ValueModel,
    add_values,
};
use crate::analysis_module::analysis::{aggregate_all, lemma_summary_of_one_metric, metrics_summary};
use vstd::prelude::*;
use vstd::string::*;

verus! {

/// Number of line feeds in `s`.
pub open spec fn line_feeds(s: Seq<char>) -> nat {
    s.filter(|c: char| c == '\n').len()
}

/// Number of lines of a text, as `str::lines` yields them: every line feed
/// ends a line, and text after the last line feed is one more line.
pub open spec fn lines_in(s: Seq<char>) -> nat {
    line_feeds(s) + if s.len() > 0 && s.last() != '\n' {
        1nat
    } else {
        0nat
    }
}

/// Counts the lines of `content` (`content.lines().count()`).
pub fn count_lines(content: &str) -> (r: u64)
    ensures
        r == lines_in(content@),
{
    let n = content.unicode_len();
    let mut feeds: u64 = 0;
    let mut i: usize = 0;
    let ghost pred = |c: char| c == '\n';
    proof {
        assert(content@.take(0) =~= Seq::<char>::empty());
    }
    while i < n
        invariant
            n == content@.len(),
            i <= n,
            feeds == line_feeds(content@.take(i as int)),
            feeds <= i,
            i > 0 && content@[i - 1] != '\n' ==> feeds < i,
        decreases n - i,
    {
        let c = content.get_char(i);
        proof {
            let t = content@.take(i + 1);
            assert(t.drop_last() =~= content@.take(i as int));
            assert(t.last() == c);
            reveal_with_fuel(Seq::filter, 1);
            assert(t.filter(pred) == if pred(t.last()) {
                t.drop_last().filter(pred).push(t.last())
            } else {
                t.drop_last().filter(pred)
            });
        }
        if c == '\n' {
            feeds = feeds + 1;
        }
        i += 1;
    }
    proof {
        assert(content@.take(n as int) =~= content@);
    }
    if n > 0 && content.get_char(n - 1) != '\n' {
        feeds + 1
    } else {
        feeds
    }
}

/// Number of line feeds in `s`.
pub open spec fn byte_line_feeds(s: Seq<u8>) -> nat {
    s.filter(|b: u8| b == 10u8).len()
}

/// Number of lines of a content read line by line: every line feed ends a
/// line, and bytes after the last line feed are one more line.
pub open spec fn byte_lines_in(s: Seq<u8>) -> nat {
    byte_line_feeds(s) + if s.len() > 0 && s.last() != 10u8 {
        1nat
    } else {
        0nat
    }
}

/// Counts the lines of `content` as reading it line by line does.
pub fn count_byte_lines(content: &[u8]) -> (r: u64)
    ensures
        r == byte_lines_in(content@),
{
    let n = content.len();
    let mut feeds: u64 = 0;
    let mut i: usize = 0;
    let ghost pred = |b: u8| b == 10u8;
    proof {
        assert(content@.take(0) =~= Seq::<u8>::empty());
    }
    while i < n
        invariant
            n == content@.len(),
            i <= n,
            feeds == byte_line_feeds(content@.take(i as int)),
            feeds <= i,
            i > 0 && content@[i - 1] != 10u8 ==> feeds < i,
        decreases n - i,
    {
        let b = content[i];
        proof {
            let t = content@.take(i + 1);
            assert(t.drop_last() =~= content@.take(i as int));
            assert(t.last() == b);
            reveal_with_fuel(Seq::filter, 1);
            assert(t.filter(pred) == if pred(t.last()) {
                t.drop_last().filter(pred).push(t.last())
            } else {
                t.drop_last().filter(pred)
            });
        }
        if b == 10u8 {
            feeds = feeds + 1;
        }
        i += 1;
    }
    proof {
        assert(content@.take(n as int) =~= content@);
    }
    if n > 0 && content[n - 1] != 10u8 {
        feeds + 1
    } else {
        feeds
    }
}

/// The lines count metric.
#[derive(Debug)]
pub struct LinesCountMetric {}

impl LinesCountMetric {
    pub fn new() -> (r: LinesCountMetric) {
        LinesCountMetric {  }
    }

    /// The value for a file: the count of its lines when its content could be
    /// read as text (`Some`), the error "Analysis error" otherwise.
    pub fn analyse_content(&self, content: Option<&str>) -> (r: Option<LinesCountValue>)
        ensures
            r matches Some(v) && v.model() == match content {
                Some(c) => Ok(lines_in(c@) as u64),
                None => Err("Analysis error"@),
            },
    {
        match content {
            Some(c) => Some(LinesCountValue { line_count: Ok(count_lines(c)) }),
            None => Some(LinesCountValue { line_count: Err("Analysis error".to_owned()) }),
        }
    }
}

/// The lines count of an analysed item, or the error that stopped counting.
#[derive(Debug)]
pub struct LinesCountValue {
    pub line_count: Result<u64, AnalysisError>,
}

/// Summary of a lines count with the value of another metric: errors give way
/// to a known value, two numbers add, anything else counts as 0.
pub open spec fn aggregate_lines(m: Result<u64, Seq<char>>, other: Result<ValueModel, Seq<char>>) -> Result<
    u64,
    Seq<char>,
> {
    match (m, other) {
        (Err(_), Err(_)) => Err("Analysis error"@),
        (Err(_), Ok(ValueModel::Number(n))) => Ok(n),
        (Err(_), Ok(_)) => Ok(0),
        (Ok(n), Err(_)) => Ok(n),
        (Ok(n), Ok(v)) => match add_values(ValueModel::Number(n), v) {
            ValueModel::Number(sum) => Ok(sum),
            _ => Ok(0),
        },
    }
}

/// A lines count result, with its error as a character sequence.
pub open spec fn count_view(c: Result<u64, AnalysisError>) -> Result<u64, Seq<char>> {
    match c {
        Ok(n) => Ok(n),
        Err(e) => Err(e@),
    }
}

/// Aggregates the lines count `count` with the value (or error) of another
/// metric, as `aggregate_lines` says.
pub fn aggregate_line_count(
    count: &Result<u64, AnalysisError>,
    other: Result<MetricValueType, AnalysisError>,
) -> (r: Result<u64, AnalysisError>)
    ensures
        count_view(r) == aggregate_lines(count_view(*count), crate::metrics::metric::value_view(other)),
{
    match (count, other) {
        (Err(_), Err(_)) => Err("Analysis error".to_owned()),
        (Err(_), Ok(MetricValueType::Number(n))) => Ok(n),
        (Err(_), Ok(_)) => Ok(0),
        (Ok(n), Err(_)) => Ok(*n),
        (Ok(n), Ok(v)) => match MetricValueType::Number(*n).add(v) {
            MetricValueType::Number(sum) => Ok(sum),
            _ => Ok(0),
        },
    }
}

impl LinesCountValue {
    /// Aggregates this count with the value (or error) of another metric.
    pub fn aggregate_with_value(&self, other: Result<MetricValueType, AnalysisError>) -> (r:
        LinesCountValue)
        ensures
            r.model() == aggregate_lines(self.model(), crate::metrics::metric::value_view(other)),
    {
        LinesCountValue { line_count: aggregate_line_count(&self.line_count, other) }
    }
}

impl IMetricValueClone for LinesCountValue {
    type Model = Result<u64, Seq<char>>;

    open spec fn model(&self) -> Result<u64, Seq<char>> {
        count_view(self.line_count)
    }

    fn clone_box(&self) -> (r: Self) {
        match &self.line_count {
            Ok(n) => LinesCountValue { line_count: Ok(*n) },
            Err(e) => LinesCountValue { line_count: Err(e.clone()) },
        }
    }
}

impl IMetricValue for LinesCountValue {
    open spec fn key_of(m: Result<u64, Seq<char>>) -> Seq<char> {
        "lines_count"@
    }

    open spec fn score_of(m: Result<u64, Seq<char>>) -> Result<u64, Seq<char>> {
        match m {
            Ok(n) => Ok(n),
            Err(_) => Err("Analysis error"@),
        }
    }

    open spec fn value_of(m: Result<u64, Seq<char>>) -> Result<ValueModel, Seq<char>> {
        match m {
            Ok(n) => Ok(ValueModel::Number(n)),
            Err(e) => Err(e),
        }
    }

    open spec fn aggregated(m: Result<u64, Seq<char>>, other: Result<u64, Seq<char>>) -> Result<
        u64,
        Seq<char>,
    > {
        aggregate_lines(m, Self::value_of(other))
    }

    fn get_key(&self) -> (r: &str) {
        "lines_count"
    }

    fn get_score(&self) -> (r: Result<MetricScoreType, AnalysisError>) {
        match &self.line_count {
            Ok(value) => Ok(MetricScoreType::Score(*value)),
            Err(_) => Err("Analysis error".to_owned()),
        }
    }

    fn get_value(&self) -> (r: Result<MetricValueType, AnalysisError>) {
        match &self.line_count {
            Ok(value) => Ok(MetricValueType::Number(*value)),
            Err(e) => Err(e.clone()),
        }
    }

    proof fn lemma_aggregated_keeps_key(m: Result<u64, Seq<char>>, other: Result<u64, Seq<char>>) {
    }

    fn aggregate(&self, other: Self) -> (r: Self) {
        self.aggregate_with_value(other.get_value())
    }
}

/// The sum of the known counts of `counts` (modulo 2^64, as the release build
/// of `+` on `u64` does); errors count for nothing.
pub open spec fn total_of_known(counts: Seq<Result<u64, Seq<char>>>) -> u64
    decreases counts.len(),
{
    if counts.len() == 0 {
        0
    } else {
        match counts.last() {
            Ok(n) => total_of_known(counts.drop_last()).wrapping_add(n),
            Err(_) => total_of_known(counts.drop_last()),
        }
    }
}

/// Whether some count of `counts` is known.
pub open spec fn some_known(counts: Seq<Result<u64, Seq<char>>>) -> bool {
    exists|i: int| 0 <= i < counts.len() && counts[i] is Ok
}

/// The lines count of a folder whose files have the counts `counts`: the sum
/// of the known counts, or when no count is known the error of its only file,
/// or "Analysis error".
pub open spec fn folder_lines_count(counts: Seq<Result<u64, Seq<char>>>) -> Result<u64, Seq<char>> {
    if some_known(counts) {
        Ok(total_of_known(counts))
    } else if counts.len() == 1 {
        counts[0]
    } else {
        Err("Analysis error"@)
    }
}

proof fn lemma_total_of_unknown(counts: Seq<Result<u64, Seq<char>>>)
    requires
        !some_known(counts),
    ensures
        total_of_known(counts) == 0,
    decreases counts.len(),
{
    if counts.len() > 0 {
        assert(!some_known(counts.drop_last())) by {
            if some_known(counts.drop_last()) {
                let i = choose|i: int|
                    0 <= i < counts.drop_last().len() && counts.drop_last()[i] is Ok;
                assert(counts[i] is Ok);
            }
        }
        lemma_total_of_unknown(counts.drop_last());
        assert(counts[counts.len() - 1] is Err);
    }
}

/// Aggregating lines counts in order gives the folder lines count.
pub proof fn lemma_aggregate_all_lines(counts: Seq<Result<u64, Seq<char>>>)
    requires
        counts.len() > 0,
    ensures
        aggregate_all::<LinesCountValue>(counts) == folder_lines_count(counts),
    decreases counts.len(),
{
    let x = counts.last();
    let init = counts.drop_last();
    assert(counts[counts.len() - 1] == x);
    if counts.len() == 1 {
        assert(counts[0] == x);
        assert(aggregate_all::<LinesCountValue>(counts) == x);
        if let Ok(n) = x {
            assert(some_known(counts));
            assert(init =~= Seq::<Result<u64, Seq<char>>>::empty());
            assert(total_of_known(init) == 0);
            assert(total_of_known(counts) == 0u64.wrapping_add(n));
        } else {
            assert(!some_known(counts));
        }
    } else {
        lemma_aggregate_all_lines(init);
        let y = folder_lines_count(init);
        assert(aggregate_all::<LinesCountValue>(counts) == aggregate_lines(
            y,
            LinesCountValue::value_of(x),
        ));
        if some_known(init) {
            assert(some_known(counts)) by {
                let i = choose|i: int| 0 <= i < init.len() && init[i] is Ok;
                assert(counts[i] is Ok);
            }
            assert(y == Ok::<u64, Seq<char>>(total_of_known(init)));
            if let Ok(n) = x {
                assert(total_of_known(counts) == total_of_known(init).wrapping_add(n));
            } else {
                assert(total_of_known(counts) == total_of_known(init));
            }
        } else {
            lemma_total_of_unknown(init);
            if init.len() == 1 {
                assert(init[0] is Err);
            }
            assert(y is Err);
            if let Ok(n) = x {
                assert(some_known(counts)) by {
                    assert(counts[counts.len() - 1] is Ok);
                }
                assert(total_of_known(counts) == 0u64.wrapping_add(n));
            } else {
                assert(!some_known(counts)) by {
                    if some_known(counts) {
                        let i = choose|i: int| 0 <= i < counts.len() && counts[i] is Ok;
                        if i < init.len() {
                            assert(init[i] is Ok);
                        }
                    }
                }
            }
        }
    }
}

/// When every file gives one lines count, a folder's lines count is the sum of
/// the counts of its files: errors give way to any known count.
pub proof fn law_folder_lines_count_is_total(files: Seq<Seq<Result<u64, Seq<char>>>>)
    requires
        files.len() > 0,
        forall|i: int| 0 <= i < files.len() ==> (#[trigger] files[i]).len() == 1,
    ensures
        metrics_summary::<LinesCountValue>(files) == seq![
            folder_lines_count(files.map_values(|f: Seq<Result<u64, Seq<char>>>| f[0])),
        ],
{
    lemma_summary_of_one_metric::<LinesCountValue>(files, "lines_count"@);
    lemma_aggregate_all_lines(files.map_values(|f: Seq<Result<u64, Seq<char>>>| f[0]));
}

} // verus!
