//! The command line prototype: the analysis of one item (a folder and the
//! file it holds) with its lines count, and its JSON form.
use crate::formatters::json::{JsonModel, JsonValue, json_entries_view, json_values_view, json_view};
use crate::paths::{path_components, path_components_of, path_file_name, path_file_name_of};
use crate::metrics::lines_count::{byte_lines_in, count_byte_lines};
use crate::text::{concat, strings_view};
use vstd::prelude::*;

verus! {

/// The arguments of the prototype: the item to analyse.
pub struct CmdArgs {
    pub path: String,
}

/// The metrics of an analysed item.
#[derive(Debug, Clone, Copy)]
pub struct Metrics {
    pub lines_metric: u32,
}

/// The analysis of a file.
#[derive(Debug)]
pub struct FileAnalysis {
    pub file_key: String,
    pub metrics: Metrics,
}

/// The analysis of a folder and of its content.
#[derive(Debug)]
pub struct FolderAnalysis {
    pub folder_key: String,
    pub metrics: Metrics,
    pub folder_content: Vec<Analysis>,
}

/// The analysis of a file or of a folder.
#[derive(Debug)]
pub enum Analysis {
    FileAnalysis(FileAnalysis),
    FolderAnalysis(FolderAnalysis),
}

/// The mathematical content of an `Analysis`.
pub enum ItemModel {
    File { key: Seq<char>, lines: u32 },
    Folder { key: Seq<char>, lines: u32, content: Seq<ItemModel> },
}

pub open spec fn analysis_view(a: Analysis) -> ItemModel
    decreases a,
{
    match a {
        Analysis::FileAnalysis(f) => ItemModel::File {
            key: f.file_key@,
            lines: f.metrics.lines_metric,
        },
        Analysis::FolderAnalysis(f) => ItemModel::Folder {
            key: f.folder_key@,
            lines: f.metrics.lines_metric,
            content: analyses_view(f.folder_content@),
        },
    }
}

pub open spec fn analyses_view(s: Seq<Analysis>) -> Seq<ItemModel>
    decreases s,
{
    if s.len() == 0 {
        Seq::empty()
    } else {
        analyses_view(s.drop_last()).push(analysis_view(s.last()))
    }
}

/// The key of an analysed item: its file name, or its whole path when it
/// has none.
pub open spec fn item_key(item: Seq<char>) -> Seq<char> {
    match path_file_name(item) {
        Some(name) => name,
        None => item,
    }
}

/// Whether a path is the current folder (its components are `.` alone).
pub open spec fn is_current_folder_path(item: Seq<char>) -> bool {
    path_components(item) == seq![seq!['.']]
}

/// The key of an analysed item, as `item_key` says.
pub fn extract_analysed_item_key(item: &str) -> (r: String)
    ensures
        r@ == item_key(item@),
{
    match path_file_name_of(item) {
        Some(name) => name,
        None => item.to_owned(),
    }
}

/// Whether `item` is the current folder, as `is_current_folder_path` says.
pub fn is_current_folder(item: &str) -> (r: bool)
    ensures
        r == is_current_folder_path(item@),
{
    let comps = path_components_of(item);
    let ghost cv = strings_view(comps@);
    if comps.len() == 1 {
        let c = comps[0].as_str();
        let n = c.unicode_len();
        proof {
            assert(cv[0] == c@);
            if n == 1 {
                assert(c@ == seq![c@[0]]);
            }
        }
        if n == 1 && c.get_char(0) == '.' {
            assert(cv =~= seq![seq!['.']]);
            true
        } else {
            assert(cv[0] != seq!['.']);
            false
        }
    } else {
        assert(cv.len() != 1);
        false
    }
}

/// Whether the analysed item is the current folder: a folder that can be
/// listed (`item_is_readable_folder`) and whose path is `.`.
pub fn analysed_item_is_in_current_folder(item: &str, item_is_readable_folder: bool) -> (r: bool)
    ensures
        r == (item_is_readable_folder && is_current_folder_path(item@)),
{
    item_is_readable_folder && is_current_folder(item)
}

/// The key of the last of the entries of a folder, given by their paths in
/// the order the folder lists them; empty when there is none.
pub fn extract_file_name(entry_paths: &Vec<String>) -> (r: String)
    ensures
        r@ == if entry_paths@.len() == 0 {
            Seq::<char>::empty()
        } else {
            item_key(entry_paths@.last()@)
        },
{
    if entry_paths.len() == 0 {
        String::new()
    } else {
        extract_analysed_item_key(entry_paths[entry_paths.len() - 1].as_str())
    }
}

/// The path of the file whose lines the prototype counts: the folder, `/`,
/// and the file's name.
pub fn file_to_analyse_path(folder: &str, file_name: &str) -> (r: String)
    ensures
        r@ == folder@ + seq!['/'] + file_name@,
{
    let with_slash = concat(folder, "/");
    proof {
        reveal_strlit("/");
    }
    concat(with_slash.as_str(), file_name)
}

/// The lines metric of a folder: the lines of the file read in it
/// (`file_content`, `None` when it could not be opened), counted modulo 2^32
/// when the folder exists, is not empty and is not the current folder, and
/// 0 otherwise.
pub fn compute_lines_count_metric(
    folder: &str,
    file_content: Option<&[u8]>,
    folder_exists: bool,
    folder_is_empty: bool,
) -> (r: u32)
    ensures
        r == match file_content {
            Some(c) => if folder_exists && !folder_is_empty && !is_current_folder_path(folder@) {
                (byte_lines_in(c@) % 0x1_0000_0000) as u32
            } else {
                0u32
            },
            None => 0u32,
        },
{
    match file_content {
        Some(content) => {
            if folder_exists && !folder_is_empty && !is_current_folder(folder) {
                let count = count_byte_lines(content);
                (count % 0x1_0000_0000) as u32
            } else {
                0
            }
        },
        None => 0,
    }
}

/// The analysis of `item`: a folder, keyed by `item_key`, with the lines
/// metric `lines`, holding the file `file_name` with the same metric unless
/// the folder is empty or is the current folder.
pub open spec fn item_analysis_model(
    item: Seq<char>,
    file_name: Seq<char>,
    lines: u32,
    folder_is_empty: bool,
    item_is_readable_folder: bool,
) -> ItemModel {
    ItemModel::Folder {
        key: item_key(item),
        lines,
        content: if !folder_is_empty && !(item_is_readable_folder && is_current_folder_path(item)) {
            seq![ItemModel::File { key: file_name, lines }]
        } else {
            Seq::empty()
        },
    }
}

/// The analysis of `item`, as `item_analysis_model` says.
pub fn analyse(
    item: &str,
    file_name: String,
    lines_metric: u32,
    folder_is_empty: bool,
    item_is_readable_folder: bool,
) -> (r: Analysis)
    ensures
        analysis_view(r) == item_analysis_model(
            item@,
            file_name@,
            lines_metric,
            folder_is_empty,
            item_is_readable_folder,
        ),
{
    let mut folder_contents: Vec<Analysis> = Vec::new();
    let metrics = Metrics { lines_metric };
    let ghost file_key = file_name@;
    let file = Analysis::FileAnalysis(FileAnalysis { file_key: file_name, metrics });
    if !folder_is_empty && !analysed_item_is_in_current_folder(item, item_is_readable_folder) {
        folder_contents.push(file);
        proof {
            reveal_with_fuel(analyses_view, 2);
            assert(folder_contents@.drop_last() =~= Seq::<Analysis>::empty());
            assert(analyses_view(folder_contents@) =~= seq![
                ItemModel::File { key: file_key, lines: lines_metric },
            ]);
        }
    } else {
        assert(analyses_view(folder_contents@) =~= Seq::<ItemModel>::empty());
    }
    Analysis::FolderAnalysis(
        FolderAnalysis {
            folder_key: extract_analysed_item_key(item),
            metrics: Metrics { lines_metric },
            folder_content: folder_contents,
        },
    )
}

/// The JSON object of the metrics of an item.
pub open spec fn metrics_json(lines: u32) -> JsonModel {
    JsonModel::Object(seq![("lines_metric"@, JsonModel::Number(lines as u64))])
}

/// The JSON form of an analysed item: `{key: {"metrics": {"lines_metric": n}}}`
/// for a file, `{key: {"folder_content": [..], "metrics": {..}}}` for a folder.
pub open spec fn item_json(m: ItemModel) -> JsonModel
    decreases m,
{
    match m {
        ItemModel::File { key, lines } => JsonModel::Object(
            seq![(key, JsonModel::Object(seq![("metrics"@, metrics_json(lines))]))],
        ),
        ItemModel::Folder { key, lines, content } => JsonModel::Object(
            seq![
                (
                    key,
                    JsonModel::Object(
                        seq![
                            ("folder_content"@, JsonModel::Array(items_json(content))),
                            ("metrics"@, metrics_json(lines)),
                        ],
                    ),
                ),
            ],
        ),
    }
}

pub open spec fn items_json(s: Seq<ItemModel>) -> Seq<JsonModel>
    decreases s,
{
    if s.len() == 0 {
        Seq::empty()
    } else {
        items_json(s.drop_last()).push(item_json(s.last()))
    }
}

fn build_json_metrics(metrics: Metrics) -> (r: JsonValue)
    ensures
        json_view(r) == metrics_json(metrics.lines_metric),
{
    let entries = vec![("lines_metric".to_owned(), JsonValue::Number(metrics.lines_metric as u64))];
    proof {
        reveal_with_fuel(json_entries_view, 2);
        assert(entries@.drop_last() =~= Seq::<(String, JsonValue)>::empty());
        assert(json_entries_view(entries@) =~= seq![
            ("lines_metric"@, JsonModel::Number(metrics.lines_metric as u64)),
        ]);
    }
    JsonValue::Object(entries)
}

/// The JSON form of a file analysis, as `item_json` says.
pub fn build_json_file_analysis(file: &FileAnalysis) -> (r: JsonValue)
    ensures
        json_view(r) == item_json(
            (ItemModel::File { key: file.file_key@, lines: file.metrics.lines_metric }),
        ),
{
    let inner = vec![("metrics".to_owned(), build_json_metrics(file.metrics))];
    let key = file.file_key.clone();
    assert(key@ == file.file_key@);
    let ghost inner_view = json_view(JsonValue::Object(inner));
    let outer = vec![(key, JsonValue::Object(inner))];
    proof {
        reveal_with_fuel(json_entries_view, 2);
        assert(inner@.drop_last() =~= Seq::<(String, JsonValue)>::empty());
        assert(outer@.drop_last() =~= Seq::<(String, JsonValue)>::empty());
        assert(json_entries_view(inner@) =~= seq![
            ("metrics"@, metrics_json(file.metrics.lines_metric)),
        ]);
        assert(json_entries_view(outer@) =~= seq![(file.file_key@, inner_view)]);
    }
    JsonValue::Object(outer)
}

proof fn lemma_analyses_view_push(s: Seq<Analysis>, i: int)
    requires
        0 <= i < s.len(),
    ensures
        analyses_view(s.take(i + 1)) == analyses_view(s.take(i)).push(analysis_view(s[i])),
{
    assert(s.take(i + 1).drop_last() =~= s.take(i));
}

/// The JSON form of a folder analysis and of its content, as `item_json` says.
pub fn build_json_folder_analysis(folder: &FolderAnalysis) -> (r: JsonValue)
    ensures
        json_view(r) == item_json(
            (ItemModel::Folder {
                key: folder.folder_key@,
                lines: folder.metrics.lines_metric,
                content: analyses_view(folder.folder_content@),
            }),
        ),
    decreases folder,
{
    let mut items: Vec<JsonValue> = Vec::new();
    let mut i: usize = 0;
    proof {
        assert(folder.folder_content@.take(0) =~= Seq::<Analysis>::empty());
    }
    while i < folder.folder_content.len()
        invariant
            i <= folder.folder_content.len(),
            json_values_view(items@) == items_json(
                analyses_view(folder.folder_content@.take(i as int)),
            ),
        decreases folder.folder_content.len() - i,
    {
        let item = match &folder.folder_content[i] {
            Analysis::FolderAnalysis(sub_folder) => {
                proof {
                    assert(decreases_to!(folder => folder.folder_content));
                    assert(decreases_to!(folder.folder_content => folder.folder_content@));
                    assert(decreases_to!(folder.folder_content@ => folder.folder_content@[i as int]));
                    assert(decreases_to!(folder.folder_content@[i as int] => folder.folder_content@[i as int]->FolderAnalysis_0));
                }
                build_json_folder_analysis(sub_folder)
            },
            Analysis::FileAnalysis(sub_file) => build_json_file_analysis(sub_file),
        };
        let ghost before = items@;
        items.push(item);
        proof {
            lemma_analyses_view_push(folder.folder_content@, i as int);
            let prev = analyses_view(folder.folder_content@.take(i as int));
            let next = prev.push(analysis_view(folder.folder_content@[i as int]));
            assert(next.drop_last() =~= prev);
            assert(items@.drop_last() =~= before);
        }
        i += 1;
    }
    proof {
        assert(folder.folder_content@.take(folder.folder_content.len() as int) =~= folder.folder_content@);
    }
    let inner = vec![
        ("folder_content".to_owned(), JsonValue::Array(items)),
        ("metrics".to_owned(), build_json_metrics(folder.metrics)),
    ];
    let key = folder.folder_key.clone();
    assert(key@ == folder.folder_key@);
    let ghost inner_view = json_view(JsonValue::Object(inner));
    let outer = vec![(key, JsonValue::Object(inner))];
    proof {
        reveal_with_fuel(json_entries_view, 3);
        assert(inner@.drop_last().drop_last() =~= Seq::<(String, JsonValue)>::empty());
        assert(outer@.drop_last() =~= Seq::<(String, JsonValue)>::empty());
        assert(json_entries_view(inner@) =~= seq![
            ("folder_content"@, JsonModel::Array(items_json(analyses_view(folder.folder_content@)))),
            ("metrics"@, metrics_json(folder.metrics.lines_metric)),
        ]);
        assert(json_entries_view(outer@) =~= seq![(folder.folder_key@, inner_view)]);
    }
    JsonValue::Object(outer)
}

/// The JSON form of an analysis, as `item_json` says.
pub fn build_json_result_analysis(analysis: &Analysis) -> (r: JsonValue)
    ensures
        json_view(r) == item_json(analysis_view(*analysis)),
{
    match analysis {
        Analysis::FolderAnalysis(folder_analysis) => build_json_folder_analysis(folder_analysis),
        Analysis::FileAnalysis(file_analysis) => build_json_file_analysis(file_analysis),
    }
}

} // verus!
