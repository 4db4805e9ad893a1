//! The bug report: the positions of the deadlocks found, as JSON.

use vstd::prelude::*;

verus! {

/// The text that `serde_json::to_string_pretty` gives for the JSON object
/// `{list_key: [{file_key: f, line_key: n}, ...]}`, with one entry per bug
/// in order; `None` where it reports an error.
pub uninterp spec fn pretty_bug_json(
    bugs: Seq<(Seq<char>, usize)>,
    list_key: Seq<char>,
    file_key: Seq<char>,
    line_key: Seq<char>,
) -> Option<Seq<char>>;

/// Builds the object above with `serde_json::Map::insert`,
/// `serde_json::Value::from` and the `Value` variants, and prints it with
/// `serde_json::to_string_pretty`; the result is named `pretty_bug_json`.
#[verifier::external_body]
fn pretty_bug_json_text(bugs: &Vec<(String, usize)>, list_key: &str, file_key: &str, line_key: &str) -> (res: Option<String>)
    ensures
        res.deep_view() == pretty_bug_json(bugs.deep_view(), list_key@, file_key@, line_key@),
{
    let mut infos: Vec<serde_json::Value> = Vec::new();
    for (file_name, line_number) in bugs.iter() {
        let mut entry = serde_json::Map::new();
        entry.insert(file_key.to_string(), serde_json::Value::from(file_name.clone()));
        entry.insert(line_key.to_string(), serde_json::Value::from(*line_number));
        infos.push(serde_json::Value::Object(entry));
    }
    let mut top = serde_json::Map::new();
    top.insert(list_key.to_string(), serde_json::Value::Array(infos));
    serde_json::to_string_pretty(&serde_json::Value::Object(top)).ok()
}

/// The JSON report of the bugs at the positions `bug_list` (file name and
/// line): an object whose `bug_infos` list holds, per bug in order, its
/// `file_name` and `line_number`, pretty-printed by serde_json.
pub fn bug_report_json(bug_list: &Vec<(String, usize)>) -> (res: Option<String>)
    ensures
        res.deep_view() == pretty_bug_json(
            bug_list.deep_view(),
            "bug_infos"@,
            "file_name"@,
            "line_number"@,
        ),
{
    pretty_bug_json_text(bug_list, "bug_infos", "file_name", "line_number")
}

} // verus!
