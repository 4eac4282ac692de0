//! Where datasets and submission histories are stored, and how stored file
//! names map back to dataset and history names.
use vstd::prelude::*;

verus! {

/// The storage root.
pub open spec fn var_root() -> Seq<char> {
    "/var/lifeich1/elearn"@
}

/// The file of dataset `name` of kind `typ`.
pub open spec fn test_data_file(typ: Seq<char>, name: Seq<char>) -> Seq<char> {
    var_root() + "/data/test/"@ + typ + "/"@ + name + ".ron"@
}

/// The directory under which histories are kept.
pub open spec fn history_root_dir() -> Seq<char> {
    var_root() + "/data/history"@
}

/// The directory of the histories of dataset `name` of kind `typ`.
pub open spec fn history_dir(typ: Seq<char>, name: Seq<char>) -> Seq<char> {
    history_root_dir() + "/"@ + typ + "/"@ + name
}

/// The file of the history `tag` of dataset `name` of kind `typ`.
pub open spec fn history_file(typ: Seq<char>, name: Seq<char>, tag: Seq<char>) -> Seq<char> {
    history_dir(typ, name) + "/"@ + tag + ".html"@
}

/// `s` without its suffix `suffix`, if it ends with it.
pub open spec fn without_suffix(s: Seq<char>, suffix: Seq<char>) -> Option<Seq<char>> {
    if suffix.len() <= s.len() && s.subrange(s.len() - suffix.len(), s.len() as int) == suffix {
        Some(s.subrange(0, s.len() - suffix.len()))
    } else {
        None
    }
}

/// Relies on `str::strip_suffix`: the string before `suffix` when `s` ends
/// with it, and nothing otherwise.
#[verifier::external_body]
fn strip_suffix(s: &str, suffix: &str) -> (r: Option<String>)
    ensures
        match r {
            Some(t) => without_suffix(s@, suffix@) == Some(t@),
            None => without_suffix(s@, suffix@) is None,
        },
{
    s.strip_suffix(suffix).map(String::from)
}

/// The file of dataset `name` of kind `typ`.
pub fn test_data_path(typ: &str, name: &str) -> (r: String)
    ensures
        r@ == test_data_file(typ@, name@),
{
    let mut s = String::from_str("/var/lifeich1/elearn");
    s.append("/data/test/");
    s.append(typ);
    s.append("/");
    s.append(name);
    s.append(".ron");
    s
}

/// The directory under which histories are kept.
pub fn history_root() -> (r: String)
    ensures
        r@ == history_root_dir(),
{
    let mut s = String::from_str("/var/lifeich1/elearn");
    s.append("/data/history");
    s
}

/// The directory of the histories of dataset `name` of kind `typ`.
pub fn history_dir_path(typ: &str, name: &str) -> (r: String)
    ensures
        r@ == history_dir(typ@, name@),
{
    let mut s = history_root();
    s.append("/");
    s.append(typ);
    s.append("/");
    s.append(name);
    s
}

/// The file of the history `tag` of dataset `name` of kind `typ`.
pub fn history_path(typ: &str, name: &str, tag: &str) -> (r: String)
    ensures
        r@ == history_file(typ@, name@, tag@),
{
    let mut s = history_dir_path(typ, name);
    s.append("/");
    s.append(tag);
    s.append(".html");
    s
}

/// The history named by a file of a history directory, if it is one.
pub fn history_name(file_name: &str) -> (r: Option<String>)
    ensures
        match r {
            Some(t) => without_suffix(file_name@, ".html"@) == Some(t@),
            None => without_suffix(file_name@, ".html"@) is None,
        },
{
    strip_suffix(file_name, ".html")
}

/// The dataset named by a file of a dataset directory, if it is one.
pub fn test_name(file_name: &str) -> (r: Option<String>)
    ensures
        match r {
            Some(t) => without_suffix(file_name@, ".ron"@) == Some(t@),
            None => without_suffix(file_name@, ".ron"@) is None,
        },
{
    strip_suffix(file_name, ".ron")
}

} // verus!
