//! The social complexity metric: who wrote the lines of a file, according to
//! git blame; a folder gathers the authors of its files.
use crate::metrics::metric::{
    AnalysisError, IMetricValue, IMetricValueClone, MetricScoreType, MetricValueType, ResultError,
    SmellsError, ValueModel, value_view,
};
use crate::paths::{components_after, components_below, join_components, join_path};
use crate::analysis_module::analysis::{aggregate_all, lemma_summary_of_one_metric, metrics_summary};
use crate::text::strings_view;
use vstd::prelude::*;
use vstd::string::*;

verus! {

/// The social complexity metric of the files of a folder in a git repository.
#[derive(Debug)]
pub struct SocialComplexityMetric {
    analyzed_folder: String,
    git_repo_of_analyzed_folder: String,
}

/// What git reports on a file of the analysed folder.
pub enum GitReport {
    /// The file is not under the repository's folder.
    OutsideRepository,
    /// The repository's index does not hold the file.
    NotVersioned,
    /// The authors that git blame gives for the lines of the file, if any.
    Authors(Result<Option<Vec<String>>, SmellsError>),
}

impl SocialComplexityMetric {
    pub closed spec fn analyzed_folder_view(&self) -> Seq<char> {
        self.analyzed_folder@
    }

    pub closed spec fn git_repository_view(&self) -> Seq<char> {
        self.git_repo_of_analyzed_folder@
    }

    pub fn new(analyzed_folder: &str, git_repo_of_analyzed_folder: &str) -> (r:
        SocialComplexityMetric)
        ensures
            r.analyzed_folder_view() == analyzed_folder@,
            r.git_repository_view() == git_repo_of_analyzed_folder@,
    {
        SocialComplexityMetric {
            analyzed_folder: analyzed_folder.to_owned(),
            git_repo_of_analyzed_folder: git_repo_of_analyzed_folder.to_owned(),
        }
    }

    /// The repository folder the metric reads the history of.
    pub fn git_repository(&self) -> (r: &str)
        ensures
            r@ == self.git_repository_view(),
    {
        self.git_repo_of_analyzed_folder.as_str()
    }

    /// The path of `file_path` relative to the repository, when the file is in it.
    pub fn relative_path(&self, file_path: &str) -> (r: Result<String, ResultError>)
        ensures
            match (r, components_after(file_path@, self.git_repository_view())) {
                (Ok(p), Some(c)) => p@ == join_components(c),
                (Err(e), None) => e.details_view() == "Result is Error"@,
                _ => false,
            },
    {
        get_relative_file_path(file_path, self.git_repo_of_analyzed_folder.as_str())
    }

    /// The value of the metric for a file, from what git reports on it: none
    /// for a file that git does not version or that has no author, the authors
    /// when git found some, the error "Analysis Error" otherwise.
    pub fn value_from_report(&self, report: GitReport) -> (r: Option<SocialComplexityValue>)
        ensures
            match report {
                GitReport::OutsideRepository => r matches Some(v) && v.model() == Err::<
                    Seq<Seq<char>>,
                    Seq<char>,
                >("Analysis Error"@),
                GitReport::NotVersioned => r is None,
                GitReport::Authors(Ok(None)) => r is None,
                GitReport::Authors(Ok(Some(a))) => r matches Some(v) && v.model() == Ok::<
                    Seq<Seq<char>>,
                    Seq<char>,
                >(strings_view(a@)),
                GitReport::Authors(Err(_)) => r matches Some(v) && v.model() == Err::<
                    Seq<Seq<char>>,
                    Seq<char>,
                >("Analysis Error"@),
            },
    {
        match report {
            GitReport::OutsideRepository => Some(
                SocialComplexityValue { authors: Err("Analysis Error".to_owned()) },
            ),
            GitReport::NotVersioned => None,
            GitReport::Authors(Ok(Some(authors))) => Some(
                SocialComplexityValue { authors: Ok(authors) },
            ),
            GitReport::Authors(Ok(None)) => None,
            GitReport::Authors(Err(_)) => Some(
                SocialComplexityValue { authors: Err("Analysis Error".to_owned()) },
            ),
        }
    }
}

/// The path of `file` relative to `git_repository` (`file.strip_prefix`), or
/// a `ResultError` when `file` is not inside it.
pub fn get_relative_file_path(file: &str, git_repository: &str) -> (r: Result<String, ResultError>)
    ensures
        match (r, components_after(file@, git_repository@)) {
            (Ok(p), Some(c)) => p@ == join_components(c),
            (Err(e), None) => e.details_view() == "Result is Error"@,
            _ => false,
        },
{
    match components_below(file, git_repository) {
        Some(rest) => Ok(join_path(&rest)),
        None => Err(ResultError::new()),
    }
}

/// The distinct names among `names`, in the order they first appear.
pub open spec fn distinct_names(names: Seq<Option<Seq<char>>>) -> Seq<Seq<char>>
    decreases names.len(),
{
    if names.len() == 0 {
        Seq::empty()
    } else {
        let prev = distinct_names(names.drop_last());
        match names.last() {
            Some(n) => if prev.contains(n) {
                prev
            } else {
                prev.push(n)
            },
            None => prev,
        }
    }
}

/// The character sequences of optional names.
pub open spec fn optional_names_view(names: Seq<Option<String>>) -> Seq<Option<Seq<char>>> {
    names.map_values(
        |n: Option<String>|
            match n {
                Some(s) => Some(s@),
                None => None,
            },
    )
}

/// Whether `names` holds `name`.
fn contains_name(names: &Vec<String>, name: &String) -> (r: bool)
    ensures
        r == strings_view(names@).contains(name@),
{
    let mut i: usize = 0;
    while i < names.len()
        invariant
            i <= names.len(),
            forall|j: int| 0 <= j < i ==> names@[j]@ != name@,
        decreases names.len() - i,
    {
        if names[i] == *name {
            proof {
                assert(strings_view(names@)[i as int] == name@);
            }
            return true;
        }
        i += 1;
    }
    proof {
        if strings_view(names@).contains(name@) {
            let m = choose|m: int|
                0 <= m < strings_view(names@).len() && strings_view(names@)[m] == name@;
            assert(names@[m]@ == name@);
        }
    }
    false
}

/// The authors of a file, from the author name that git blame gives for each
/// of its lines (`None` where blame has no hunk or no name): each name once,
/// in the order of first appearance, or `None` when there is no name at all.
pub fn collect_authors(line_authors: Vec<Option<String>>) -> (r: Option<Vec<String>>)
    ensures
        match r {
            Some(a) => strings_view(a@) == distinct_names(optional_names_view(line_authors@))
                && a@.len() > 0,
            None => distinct_names(optional_names_view(line_authors@)).len() == 0,
        },
{
    let mut authors: Vec<String> = Vec::new();
    let ghost names = optional_names_view(line_authors@);
    let mut i: usize = 0;
    proof {
        assert(names.take(0) =~= Seq::<Option<Seq<char>>>::empty());
    }
    while i < line_authors.len()
        invariant
            i <= line_authors.len(),
            names == optional_names_view(line_authors@),
            strings_view(authors@) == distinct_names(names.take(i as int)),
        decreases line_authors.len() - i,
    {
        proof {
            assert(names.take(i + 1).drop_last() =~= names.take(i as int));
            assert(names.take(i + 1).last() == names[i as int]);
        }
        match &line_authors[i] {
            Some(name) => {
                if !contains_name(&authors, name) {
                    let ghost before = authors@;
                    authors.push(name.clone());
                    proof {
                        assert(strings_view(authors@) =~= strings_view(before).push(name@));
                    }
                }
            },
            None => {},
        }
        i += 1;
    }
    proof {
        assert(names.take(line_authors.len() as int) =~= names);
    }
    if authors.len() > 0 {
        Some(authors)
    } else {
        None
    }
}

/// `acc` followed by those of `others` that are not in it yet, each once.
pub open spec fn append_unique(acc: Seq<Seq<char>>, others: Seq<Seq<char>>) -> Seq<Seq<char>>
    decreases others.len(),
{
    if others.len() == 0 {
        acc
    } else {
        let prev = append_unique(acc, others.drop_last());
        if prev.contains(others.last()) {
            prev
        } else {
            prev.push(others.last())
        }
    }
}

/// Summary of a list of authors with the value of another metric: errors give
/// way to a known list, two lists join without repeating an author, and a
/// number counts as no author.
pub open spec fn aggregate_authors(
    m: Result<Seq<Seq<char>>, Seq<char>>,
    other: Result<ValueModel, Seq<char>>,
) -> Result<Seq<Seq<char>>, Seq<char>> {
    match (m, other) {
        (Err(_), Err(_)) => Err("Analysis error"@),
        (Err(_), Ok(ValueModel::Authors(a))) => Ok(a),
        (Err(_), Ok(_)) => Ok(Seq::empty()),
        (Ok(a), Err(_)) => Ok(a),
        (Ok(a), Ok(ValueModel::Authors(b))) => Ok(append_unique(a, b)),
        (Ok(a), Ok(_)) => Ok(append_unique(a, Seq::empty())),
    }
}

/// The authors of an analysed item, or the error that stopped finding them.
#[derive(Debug)]
pub struct SocialComplexityValue {
    pub authors: Result<Vec<String>, AnalysisError>,
}

/// A copy of a list of strings.
fn copy_strings(v: &Vec<String>) -> (r: Vec<String>)
    ensures
        strings_view(r@) == strings_view(v@),
{
    let mut out: Vec<String> = Vec::new();
    let mut i: usize = 0;
    while i < v.len()
        invariant
            i <= v.len(),
            strings_view(out@) == strings_view(v@).take(i as int),
        decreases v.len() - i,
    {
        let ghost before = out@;
        let item = v[i].clone();
        assert(item@ == v@[i as int]@);
        out.push(item);
        proof {
            assert(strings_view(out@) =~= strings_view(before).push(item@));
            assert(strings_view(v@).take(i + 1) =~= strings_view(v@).take(i as int).push(v@[i as int]@));
        }
        i += 1;
    }
    proof {
        assert(strings_view(v@).take(v.len() as int) =~= strings_view(v@));
    }
    out
}

impl SocialComplexityValue {
    /// Aggregates this list of authors with the value (or error) of another metric.
    pub fn aggregate_with_value(&self, other: Result<MetricValueType, AnalysisError>) -> (r:
        SocialComplexityValue)
        ensures
            r.model() == aggregate_authors(self.model(), value_view(other)),
    {
        let authors = match (&self.authors, other) {
            (Err(_), Err(_)) => Err("Analysis error".to_owned()),
            (Err(_), Ok(MetricValueType::Authors(a))) => Ok(a),
            (Err(_), Ok(_)) => {
                let empty: Vec<String> = Vec::new();
                assert(strings_view(empty@) =~= Seq::<Seq<char>>::empty());
                Ok(empty)
            },
            (Ok(a), Err(_)) => Ok(copy_strings(a)),
            (Ok(a), Ok(v)) => {
                let other_authors = match v {
                    MetricValueType::Authors(b) => b,
                    _ => Vec::new(),
                };
                let mut unique_authors = copy_strings(a);
                let ghost acc = strings_view(a@);
                let ghost others = strings_view(other_authors@);
                let mut i: usize = 0;
                proof {
                    assert(others.take(0) =~= Seq::<Seq<char>>::empty());
                }
                while i < other_authors.len()
                    invariant
                        i <= other_authors.len(),
                        others == strings_view(other_authors@),
                        strings_view(unique_authors@) == append_unique(acc, others.take(i as int)),
                    decreases other_authors.len() - i,
                {
                    proof {
                        assert(others.take(i + 1).drop_last() =~= others.take(i as int));
                        assert(others.take(i + 1).last() == other_authors@[i as int]@);
                    }
                    if !contains_name(&unique_authors, &other_authors[i]) {
                        let ghost before = unique_authors@;
                        unique_authors.push(other_authors[i].clone());
                        proof {
                            assert(strings_view(unique_authors@) =~= strings_view(before).push(
                                other_authors@[i as int]@,
                            ));
                        }
                    }
                    i += 1;
                }
                proof {
                    assert(others.take(other_authors.len() as int) =~= others);
                    if others.len() == 0 {
                        assert(others =~= Seq::<Seq<char>>::empty());
                    }
                }
                Ok(unique_authors)
            },
        };
        SocialComplexityValue { authors }
    }
}

impl IMetricValueClone for SocialComplexityValue {
    type Model = Result<Seq<Seq<char>>, Seq<char>>;

    open spec fn model(&self) -> Result<Seq<Seq<char>>, Seq<char>> {
        match self.authors {
            Ok(a) => Ok(strings_view(a@)),
            Err(e) => Err(e@),
        }
    }

    fn clone_box(&self) -> (r: Self) {
        match &self.authors {
            Ok(a) => SocialComplexityValue { authors: Ok(copy_strings(a)) },
            Err(e) => SocialComplexityValue { authors: Err(e.clone()) },
        }
    }
}

impl IMetricValue for SocialComplexityValue {
    open spec fn key_of(m: Result<Seq<Seq<char>>, Seq<char>>) -> Seq<char> {
        "social_complexity"@
    }

    open spec fn score_of(m: Result<Seq<Seq<char>>, Seq<char>>) -> Result<u64, Seq<char>> {
        match m {
            Ok(a) => Ok(a.len() as u64),
            Err(e) => Err(e),
        }
    }

    open spec fn value_of(m: Result<Seq<Seq<char>>, Seq<char>>) -> Result<ValueModel, Seq<char>> {
        match m {
            Ok(a) => Ok(ValueModel::Authors(a)),
            Err(e) => Err(e),
        }
    }

    open spec fn aggregated(
        m: Result<Seq<Seq<char>>, Seq<char>>,
        other: Result<Seq<Seq<char>>, Seq<char>>,
    ) -> Result<Seq<Seq<char>>, Seq<char>> {
        aggregate_authors(m, Self::value_of(other))
    }

    fn get_key(&self) -> (r: &str) {
        "social_complexity"
    }

    fn get_score(&self) -> (r: Result<MetricScoreType, AnalysisError>) {
        match &self.authors {
            Ok(authors) => Ok(MetricScoreType::Score(authors.len() as u64)),
            Err(error) => Err(error.clone()),
        }
    }

    fn get_value(&self) -> (r: Result<MetricValueType, AnalysisError>) {
        match &self.authors {
            Ok(authors) => Ok(MetricValueType::Authors(copy_strings(authors))),
            Err(error) => Err(error.clone()),
        }
    }

    proof fn lemma_aggregated_keeps_key(m: Result<Seq<Seq<char>>, Seq<char>>, other: Result<Seq<Seq<char>>, Seq<char>>) {
    }

    fn aggregate(&self, other: Self) -> (r: Self) {
        self.aggregate_with_value(other.get_value())
    }
}

/// The authors of the known lists of `vs`, in order, repeats included.
pub open spec fn known_authors(vs: Seq<Result<Seq<Seq<char>>, Seq<char>>>) -> Seq<Seq<char>>
    decreases vs.len(),
{
    if vs.len() == 0 {
        Seq::empty()
    } else {
        known_authors(vs.drop_last()) + match vs.last() {
            Ok(a) => a,
            Err(_) => Seq::empty(),
        }
    }
}

/// Whether some list of authors of `vs` is known.
pub open spec fn some_authors_known(vs: Seq<Result<Seq<Seq<char>>, Seq<char>>>) -> bool {
    exists|i: int| 0 <= i < vs.len() && vs[i] is Ok
}

/// The authors of a folder whose files have the author lists `vs`: every
/// author of a known list, once, in the order they first appear; or when no
/// list is known the error of its only file, or "Analysis error".
pub open spec fn folder_authors(vs: Seq<Result<Seq<Seq<char>>, Seq<char>>>) -> Result<
    Seq<Seq<char>>,
    Seq<char>,
> {
    if some_authors_known(vs) {
        Ok(append_unique(Seq::empty(), known_authors(vs)))
    } else if vs.len() == 1 {
        vs[0]
    } else {
        Err("Analysis error"@)
    }
}

proof fn lemma_append_unique_concat(acc: Seq<Seq<char>>, x: Seq<Seq<char>>, b: Seq<Seq<char>>)
    ensures
        append_unique(append_unique(acc, x), b) == append_unique(acc, x + b),
    decreases b.len(),
{
    if b.len() == 0 {
        assert(x + b =~= x);
    } else {
        lemma_append_unique_concat(acc, x, b.drop_last());
        assert((x + b).drop_last() =~= x + b.drop_last());
        assert((x + b).last() == b.last());
    }
}

proof fn lemma_append_unique_distinct(a: Seq<Seq<char>>)
    requires
        a.no_duplicates(),
    ensures
        append_unique(Seq::empty(), a) == a,
    decreases a.len(),
{
    if a.len() > 0 {
        let init = a.drop_last();
        assert(init.no_duplicates()) by {
            assert forall|i: int, j: int| 0 <= i < init.len() && 0 <= j < init.len() && i != j implies init[i] != init[j] by {
                assert(init[i] == a[i] && init[j] == a[j]);
            }
        }
        lemma_append_unique_distinct(init);
        assert(!init.contains(a.last())) by {
            if init.contains(a.last()) {
                let i = choose|i: int| 0 <= i < init.len() && init[i] == a.last();
                assert(a[i] == a[a.len() - 1]);
            }
        }
        assert(init.push(a.last()) =~= a);
    }
}

proof fn lemma_known_authors_none(vs: Seq<Result<Seq<Seq<char>>, Seq<char>>>)
    requires
        !some_authors_known(vs),
    ensures
        known_authors(vs) == Seq::<Seq<char>>::empty(),
    decreases vs.len(),
{
    if vs.len() > 0 {
        assert(!some_authors_known(vs.drop_last())) by {
            if some_authors_known(vs.drop_last()) {
                let i = choose|i: int| 0 <= i < vs.drop_last().len() && vs.drop_last()[i] is Ok;
                assert(vs[i] is Ok);
            }
        }
        lemma_known_authors_none(vs.drop_last());
        assert(vs[vs.len() - 1] is Err);
        assert(known_authors(vs) =~= Seq::<Seq<char>>::empty());
    }
}

/// Aggregating author lists without repeats, in order, gives the folder
/// authors.
pub proof fn lemma_aggregate_all_authors(vs: Seq<Result<Seq<Seq<char>>, Seq<char>>>)
    requires
        vs.len() > 0,
        forall|i: int| 0 <= i < vs.len() ==> (#[trigger] vs[i] matches Ok(a) ==> a.no_duplicates()),
    ensures
        aggregate_all::<SocialComplexityValue>(vs) == folder_authors(vs),
    decreases vs.len(),
{
    let x = vs.last();
    assert(vs[vs.len() - 1] == x);
    if vs.len() == 1 {
        assert(vs[0] == x);
        if let Ok(a) = x {
            assert(some_authors_known(vs));
            assert(vs.drop_last() =~= Seq::<Result<Seq<Seq<char>>, Seq<char>>>::empty());
            assert(known_authors(vs.drop_last()) =~= Seq::<Seq<char>>::empty());
            assert(known_authors(vs) =~= a);
            lemma_append_unique_distinct(a);
        } else {
            assert(!some_authors_known(vs));
        }
    } else {
        let init = vs.drop_last();
        assert forall|i: int| 0 <= i < init.len() implies (#[trigger] init[i] matches Ok(a)
            ==> a.no_duplicates()) by {
            assert(init[i] == vs[i]);
        }
        lemma_aggregate_all_authors(init);
        if some_authors_known(init) {
            assert(some_authors_known(vs)) by {
                let i = choose|i: int| 0 <= i < init.len() && init[i] is Ok;
                assert(vs[i] is Ok);
            }
            match x {
                Ok(b) => {
                    lemma_append_unique_concat(Seq::empty(), known_authors(init), b);
                },
                Err(_) => {
                    assert(known_authors(vs) =~= known_authors(init));
                },
            }
        } else {
            lemma_known_authors_none(init);
            match x {
                Ok(b) => {
                    assert(some_authors_known(vs)) by {
                        assert(vs[vs.len() - 1] is Ok);
                    }
                    assert(known_authors(vs) =~= b);
                    lemma_append_unique_distinct(b);
                },
                Err(_) => {
                    assert(!some_authors_known(vs)) by {
                        if some_authors_known(vs) {
                            let i = choose|i: int| 0 <= i < vs.len() && vs[i] is Ok;
                            if i < init.len() {
                                assert(init[i] is Ok);
                            }
                        }
                    }
                },
            }
        }
    }
}

/// When every file gives one list of authors, with no author twice in a
/// list, a folder's authors are the authors of its files, each once, in the
/// order they first appear; errors give way to any known list.
pub proof fn law_folder_authors_are_the_files_authors(
    files: Seq<Seq<Result<Seq<Seq<char>>, Seq<char>>>>,
)
    requires
        files.len() > 0,
        forall|i: int| 0 <= i < files.len() ==> (#[trigger] files[i]).len() == 1,
        forall|i: int| 0 <= i < files.len() ==> (#[trigger] files[i][0] matches Ok(a) ==> a.no_duplicates()),
    ensures
        metrics_summary::<SocialComplexityValue>(files) == seq![
            folder_authors(files.map_values(|f: Seq<Result<Seq<Seq<char>>, Seq<char>>>| f[0])),
        ],
{
    let vs = files.map_values(|f: Seq<Result<Seq<Seq<char>>, Seq<char>>>| f[0]);
    lemma_summary_of_one_metric::<SocialComplexityValue>(files, "social_complexity"@);
    assert forall|i: int| 0 <= i < vs.len() implies (#[trigger] vs[i] matches Ok(a) ==> a.no_duplicates()) by {
        assert(vs[i] == files[i][0]);
    }
    lemma_aggregate_all_authors(vs);
}

/// A path written with `/` in place of every `\\`.
pub open spec fn with_forward_slashes(path: Seq<char>) -> Seq<char> {
    path.map_values(|c: char| if c == '\\' { '/' } else { c })
}

/// The git revision that names the content of the file `relative_path` in
/// the last commit: `HEAD:` followed by the path with forward slashes.
pub fn head_blob_spec(relative_path: &str) -> (r: String)
    ensures
        r@ == "HEAD:"@ + with_forward_slashes(relative_path@),
{
    let mut out = "HEAD:".to_owned();
    let n = relative_path.unicode_len();
    let mut i: usize = 0;
    proof {
        assert(with_forward_slashes(relative_path@.take(0)) =~= Seq::<char>::empty());
    }
    while i < n
        invariant
            n == relative_path@.len(),
            i <= n,
            out@ == "HEAD:"@ + with_forward_slashes(relative_path@.take(i as int)),
        decreases n - i,
    {
        let c = relative_path.get_char(i);
        let ghost before = out@;
        if c == '\\' {
            out.append("/");
        } else {
            out.append(relative_path.substring_char(i, i + 1));
        }
        proof {
            reveal_strlit("/");
            assert(relative_path@.subrange(i as int, i + 1) =~= seq![c]);
            assert(out@ == before + seq![if c == '\\' { '/' } else { c }]);
            assert(with_forward_slashes(relative_path@.take(i + 1)) =~= with_forward_slashes(
                relative_path@.take(i as int),
            ).push(if c == '\\' { '/' } else { c }));
            assert(out@ =~= "HEAD:"@ + with_forward_slashes(relative_path@.take(i + 1)));
        }
        i += 1;
    }
    proof {
        assert(relative_path@.take(n as int) =~= relative_path@);
    }
    out
}

proof fn lemma_append_unique_props(a: Seq<Seq<char>>, b: Seq<Seq<char>>)
    ensures
        a.is_prefix_of(append_unique(a, b)),
        a.no_duplicates() ==> append_unique(a, b).no_duplicates(),
        append_unique(a, b).to_set() == a.to_set().union(b.to_set()),
    decreases b.len(),
{
    let r = append_unique(a, b);
    if b.len() == 0 {
        assert(a.is_prefix_of(a)) by {
            assert(a =~= a.subrange(0, a.len() as int));
        }
        assert(b.to_set() =~= Set::<Seq<char>>::empty());
        assert(a.to_set().union(b.to_set()) =~= a.to_set());
    } else {
        let init = b.drop_last();
        let x = b.last();
        lemma_append_unique_props(a, init);
        let prev = append_unique(a, init);
        init.lemma_push_to_set_commute(x);
        assert(init.push(x) =~= b);
        if prev.contains(x) {
            assert(prev.to_set().contains(x));
            assert(a.to_set().union(b.to_set()) =~= a.to_set().union(init.to_set()));
        } else {
            prev.lemma_push_to_set_commute(x);
            assert(a.is_prefix_of(r)) by {
                assert(a =~= r.subrange(0, a.len() as int)) by {
                    assert(a =~= prev.subrange(0, a.len() as int));
                }
            }
            if a.no_duplicates() {
                assert(r.no_duplicates()) by {
                    assert forall|i: int, j: int| 0 <= i < r.len() && 0 <= j < r.len() && i != j implies r[i] != r[j] by {
                        if i < prev.len() && j < prev.len() {
                            assert(r[i] == prev[i] && r[j] == prev[j]);
                        } else if i < prev.len() {
                            assert(r[i] == prev[i] && r[j] == x);
                        } else if j < prev.len() {
                            assert(r[j] == prev[j] && r[i] == x);
                        }
                    }
                }
            }
            assert(a.to_set().union(b.to_set()) =~= a.to_set().union(init.to_set()).insert(x));
        }
    }
}

/// Joining two lists of authors keeps the first list as it is at the front,
/// repeats no author when the first list repeats none, and holds every author
/// of either list; two lists without repeats give the same number of authors
/// joined either way round.
pub proof fn law_joined_authors_are_the_union(a: Seq<Seq<char>>, b: Seq<Seq<char>>)
    ensures
        SocialComplexityValue::aggregated(Ok(a), Ok(b)) == Ok::<Seq<Seq<char>>, Seq<char>>(
            append_unique(a, b),
        ),
        a.is_prefix_of(append_unique(a, b)),
        a.no_duplicates() ==> append_unique(a, b).no_duplicates(),
        append_unique(a, b).to_set() == a.to_set().union(b.to_set()),
        a.no_duplicates() && b.no_duplicates() ==> append_unique(a, b).len() == append_unique(
            b,
            a,
        ).len(),
{
    lemma_append_unique_props(a, b);
    lemma_append_unique_props(b, a);
    if a.no_duplicates() && b.no_duplicates() {
        append_unique(a, b).unique_seq_to_set();
        append_unique(b, a).unique_seq_to_set();
        assert(a.to_set().union(b.to_set()) =~= b.to_set().union(a.to_set()));
    }
}

} // verus!
