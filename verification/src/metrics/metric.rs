//! What a metric is: the value it gives for a file, its score, how two values
//! of one metric aggregate, and the errors of an analysis.
use crate::text::{concat, decimal, strings_view, u64_to_decimal};
use vstd::prelude::*;

verus! {

/// The message of a failed analysis.
pub type AnalysisError = String;

/// Errors raised while analysing.
#[derive(Debug)]
pub enum SmellsError {
    AnalysisError(AnalysisError),
    ResultError(ResultError),
    OptionError(OptionError),
    GitError(String),
}

/// Prefix of the message of a `SmellsError::GitError`.
pub open spec fn git_error_prefix() -> Seq<char> {
    "Error while retrieving social complexity git objects: \n"@
}

#[verifier::external_type_specification]
#[verifier::external_body]
pub struct ExGitError(git2::Error);

/// The text of a git error (`git2::Error::message`, which hands back the
/// message stored in the error). Nothing is stated of it: it is the text that
/// libgit2 gave when the error was made.
#[verifier::external_body]
fn git_error_text(error: &git2::Error) -> (r: String) {
    error.message().to_owned()
}

impl SmellsError {
    /// The error raised when git fails with `error`: the git error prefix
    /// followed by the text of `error`.
    pub fn from_git_error(error: &git2::Error) -> (r: SmellsError)
        ensures
            r matches SmellsError::GitError(text) && git_error_prefix().is_prefix_of(text@),
    {
        let text = git_error_text(error);
        let r = SmellsError::from_git_error_message(text.as_str());
        proof {
            reveal_strlit("Error while retrieving social complexity git objects: \n");
        }
        r
    }

    /// The error raised when git fails with `message`.
    pub fn from_git_error_message(message: &str) -> (r: SmellsError)
        ensures
            r matches SmellsError::GitError(text) && text@ == git_error_prefix() + message@,
    {
        let prefix = "Error while retrieving social complexity git objects: \n";
        SmellsError::GitError(concat(prefix, message))
    }
}

/// The error of a `Result` that is not `Ok`.
#[derive(Debug)]
pub struct ResultError {
    details: String,
}

impl ResultError {
    /// The text of the error.
    pub closed spec fn details_view(&self) -> Seq<char> {
        self.details@
    }

    pub fn new() -> (r: ResultError)
        ensures
            r.details_view() == "Result is Error"@,
    {
        ResultError { details: "Result is Error".to_owned() }
    }

    /// The text of the error, as its `Display` and `description` give it.
    pub fn description(&self) -> (r: &str)
        ensures
            r@ == self.details_view(),
    {
        self.details.as_str()
    }
}

/// The error of an `Option` that is `None`.
#[derive(Debug)]
pub struct OptionError {
    details: String,
}

impl OptionError {
    /// The text of the error.
    pub closed spec fn details_view(&self) -> Seq<char> {
        self.details@
    }

    pub fn new() -> (r: OptionError)
        ensures
            r.details_view() == "Option is None"@,
    {
        OptionError { details: "Option is None".to_owned() }
    }

    /// The text of the error, as its `Display` and `description` give it.
    pub fn description(&self) -> (r: &str)
        ensures
            r@ == self.details_view(),
    {
        self.details.as_str()
    }
}

/// The score of a metric on an analysed item.
#[derive(Debug, Clone, Copy, PartialEq, Eq, Structural)]
pub enum MetricScoreType {
    Score(u64),
}

/// The raw value of a metric on an analysed item.
#[derive(Debug, Clone, PartialEq, Eq)]
pub enum MetricValueType {
    Number(u64),
    Authors(Vec<String>),
}

/// The value of a metric, with text as character sequences.
pub enum ValueModel {
    Number(u64),
    Authors(Seq<Seq<char>>),
}

impl View for MetricValueType {
    type V = ValueModel;

    open spec fn view(&self) -> ValueModel {
        match self {
            MetricValueType::Number(n) => ValueModel::Number(*n),
            MetricValueType::Authors(a) => ValueModel::Authors(strings_view(a@)),
        }
    }
}

/// The score carried by a score result, the error by its text.
pub open spec fn score_view(r: Result<MetricScoreType, AnalysisError>) -> Result<u64, Seq<char>> {
    match r {
        Ok(MetricScoreType::Score(n)) => Ok(n),
        Err(e) => Err(e@),
    }
}

/// A value result, with its text as character sequences.
pub open spec fn value_view(r: Result<MetricValueType, AnalysisError>) -> Result<
    ValueModel,
    Seq<char>,
> {
    match r {
        Ok(v) => Ok(v@),
        Err(e) => Err(e@),
    }
}

/// Sum of two metric values: numbers add (modulo 2^64, as the release build of
/// `+` on `u64` does), author lists are joined, and a
/// number added to a list of authors joins the list as its decimal text (at
/// the end when the number comes first, at the front otherwise).
pub open spec fn add_values(a: ValueModel, b: ValueModel) -> ValueModel {
    match (a, b) {
        (ValueModel::Number(n1), ValueModel::Number(n2)) => ValueModel::Number(n1.wrapping_add(n2)),
        (ValueModel::Authors(a1), ValueModel::Authors(a2)) => ValueModel::Authors(a1 + a2),
        (ValueModel::Number(n), ValueModel::Authors(a)) => ValueModel::Authors(
            a.push(decimal(n as nat)),
        ),
        (ValueModel::Authors(a), ValueModel::Number(n)) => ValueModel::Authors(
            seq![decimal(n as nat)] + a,
        ),
    }
}

impl MetricValueType {
    /// `self + other`, as `add_values` says.
    pub fn add(self, other: MetricValueType) -> (r: MetricValueType)
        ensures
            r@ == add_values(self@, other@),
    {
        match (self, other) {
            (MetricValueType::Number(n1), MetricValueType::Number(n2)) => MetricValueType::Number(
                n1.wrapping_add(n2),
            ),
            (MetricValueType::Authors(authors1), MetricValueType::Authors(authors2)) => {
                let mut authors1 = authors1;
                let mut authors2 = authors2;
                let ghost a1 = authors1@;
                let ghost a2 = authors2@;
                authors1.append(&mut authors2);
                proof {
                    assert(strings_view(authors1@) =~= strings_view(a1) + strings_view(a2));
                }
                MetricValueType::Authors(authors1)
            },
            (MetricValueType::Number(n), MetricValueType::Authors(authors)) => {
                let mut authors = authors;
                let ghost a = authors@;
                authors.push(u64_to_decimal(n));
                proof {
                    assert(strings_view(authors@) =~= strings_view(a).push(decimal(n as nat)));
                }
                MetricValueType::Authors(authors)
            },
            (MetricValueType::Authors(authors), MetricValueType::Number(n)) => {
                let mut authors = authors;
                let ghost a = authors@;
                authors.insert(0, u64_to_decimal(n));
                proof {
                    assert(strings_view(authors@) =~= seq![decimal(n as nat)] + strings_view(a));
                }
                MetricValueType::Authors(authors)
            },
        }
    }
}

/// Copying a metric value, with what stays the same under the copy.
pub trait IMetricValueClone: Sized {
    /// The mathematical content of a metric value.
    type Model;

    spec fn model(&self) -> Self::Model;

    fn clone_box(&self) -> (r: Self)
        ensures
            r.model() == self.model(),
    ;
}

/// The value of one metric on one analysed item.
pub trait IMetricValue: IMetricValueClone {
    /// The name of the metric.
    spec fn key_of(m: Self::Model) -> Seq<char>;

    /// The score: a number, or the error text.
    spec fn score_of(m: Self::Model) -> Result<u64, Seq<char>>;

    /// The raw value, or the error text.
    spec fn value_of(m: Self::Model) -> Result<ValueModel, Seq<char>>;

    /// The summary of two values of the metric.
    spec fn aggregated(m: Self::Model, other: Self::Model) -> Self::Model;

    /// Aggregating a value keeps the name of its metric.
    proof fn lemma_aggregated_keeps_key(m: Self::Model, other: Self::Model)
        ensures
            Self::key_of(Self::aggregated(m, other)) == Self::key_of(m),
    ;

    fn get_key(&self) -> (r: &str)
        ensures
            r@ == Self::key_of(self.model()),
    ;

    fn get_score(&self) -> (r: Result<MetricScoreType, AnalysisError>)
        ensures
            score_view(r) == Self::score_of(self.model()),
    ;

    fn get_value(&self) -> (r: Result<MetricValueType, AnalysisError>)
        ensures
            value_view(r) == Self::value_of(self.model()),
    ;

    fn aggregate(&self, other: Self) -> (r: Self)
        ensures
            r.model() == Self::aggregated(self.model(), other.model()),
    ;
}

/// A metric: something that gives a value for a file, or none.
pub trait IMetric {
    type Value: IMetricValue;

    /// Whether `value` is a result that the metric may give for the file at
    /// `file_path`. A metric that says nothing of its results allows any.
    open spec fn gives(&self, file_path: Seq<char>, value: Option<Self::Value>) -> bool {
        true
    }

    fn analyse(&self, file_path: &str) -> (r: Option<Self::Value>)
        ensures
            self.gives(file_path@, r),
    ;
}

} // verus!
