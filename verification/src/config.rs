//! Reading the book's own configuration (`book.toml` for mdBook, `book.json`
//! or `book.js` for GitBook) and choosing the note files of a directory walk.
use vstd::prelude::*;
use crate::book::same_chars;
use crate::text::{chars_of, ends_with, has_suffix, lowercase, push_all, string_of, to_lowercase};

verus! {

#[verifier::external_type_specification]
#[verifier::external_body]
pub struct ExTomlError(toml::de::Error);

#[verifier::external_type_specification]
#[verifier::external_body]
pub struct ExJsonError(serde_json::Error);

/// What a TOML text holds as a string at `table.key`: `None` where the text
/// is not a TOML table, `Some(None)` where it is but holds no string there.
pub uninterp spec fn toml_lookup(content: Seq<char>, table: Seq<char>, key: Seq<char>) -> Option<
    Option<Seq<char>>,
>;

/// What a JSON text holds as a string under `key` of its top-level object:
/// `None` where the text is not JSON, `Some(None)` where it is but holds no
/// string there.
pub uninterp spec fn json_lookup(content: Seq<char>, key: Seq<char>) -> Option<Option<Seq<char>>>;

/// The text held by an optional string.
pub open spec fn opt_string(o: Option<String>) -> Option<Seq<char>> {
    match o {
        Some(s) => Some(s@),
        None => None,
    }
}

/// `content.parse::<toml::Table>()`, then `get(table)`, `get(key)` and
/// `as_str`; the contract names the result, and the parse error is passed on.
#[verifier::external_body]
fn toml_string_at(content: &str, table: &str, key: &str) -> (r: Result<Option<String>, toml::de::Error>)
    ensures
        r is Ok <==> toml_lookup(content@, table@, key@) is Some,
        r matches Ok(v) ==> toml_lookup(content@, table@, key@) == Some(opt_string(v)),
{
    let values = content.parse::<toml::Table>()?;
    let value = values.get(table).and_then(|t| t.get(key)).and_then(|v| v.as_str());
    Ok(value.map(|s| s.to_string()))
}

/// `serde_json::from_str::<serde_json::Value>(content)`, then `[key]` and
/// `as_str`; the contract names the result, and the parse error is passed
/// on.
#[verifier::external_body]
fn json_string_at(content: &str, key: &str) -> (r: Result<Option<String>, serde_json::Error>)
    ensures
        r is Ok <==> json_lookup(content@, key@) is Some,
        r matches Ok(v) ==> json_lookup(content@, key@) == Some(opt_string(v)),
{
    let values: serde_json::Value = serde_json::from_str(content)?;
    Ok(values[key].as_str().map(|s| s.to_string()))
}

/// The source directory and the title that a book configuration names.
pub struct BookFields {
    pub src: Option<String>,
    pub title: Option<String>,
}

/// The message for a configuration file that cannot be parsed starts with
/// `无法解析 {path}：` and goes on with the parser's message.
pub open spec fn parse_failure_prefix(path: Seq<char>) -> Seq<char> {
    "无法解析 "@ + path + "："@
}

/// What a configuration text names, by the file's extension: `book.src` and
/// `book.title` of a TOML file, `root` and `title` of a JSON file, nothing
/// for any other extension; `None` where the text does not parse.
pub open spec fn config_fields(extension: Seq<char>, content: Seq<char>) -> Option<
    (Option<Seq<char>>, Option<Seq<char>>),
> {
    if extension == "toml"@ {
        match (
            toml_lookup(content, "book"@, "src"@),
            toml_lookup(content, "book"@, "title"@),
        ) {
            (Some(src), Some(title)) => Some((src, title)),
            _ => None,
        }
    } else if extension == "js"@ || extension == "json"@ {
        match (json_lookup(content, "root"@), json_lookup(content, "title"@)) {
            (Some(src), Some(title)) => Some((src, title)),
            _ => None,
        }
    } else {
        Some((None, None))
    }
}

fn parse_failure(path: &str, detail: String) -> (r: String)
    ensures
        r@ == parse_failure_prefix(path@) + detail@,
{
    let mut m = chars_of("无法解析 ");
    push_all(&mut m, &chars_of(path));
    push_all(&mut m, &chars_of("："));
    push_all(&mut m, &chars_of(detail.as_str()));
    string_of(&m)
}

/// The source directory and title named by the content of a configuration
/// file with the given extension; a content that does not parse gives the
/// message `无法解析 {path}：` followed by the parser's message.
pub fn read_book_config(extension: &str, content: &str, path: &str) -> (r: Result<BookFields, String>)
    ensures
        match r {
            Ok(f) => config_fields(extension@, content@) == Some((opt_string(f.src), opt_string(f.title))),
            Err(m) => config_fields(extension@, content@) is None && m@.len() >= parse_failure_prefix(path@).len()
                && m@.take(parse_failure_prefix(path@).len() as int) == parse_failure_prefix(path@),
        },
{
    let ext = chars_of(extension);
    if same_chars(&ext, &chars_of("toml")) {
        let src = match toml_string_at(content, "book", "src") {
            Ok(v) => v,
            Err(e) => {
                let m = parse_failure(path, e.to_string());
                assert(m@.take(parse_failure_prefix(path@).len() as int) =~= parse_failure_prefix(path@));
                return Err(m);
            },
        };
        let title = match toml_string_at(content, "book", "title") {
            Ok(v) => v,
            Err(e) => {
                let m = parse_failure(path, e.to_string());
                assert(m@.take(parse_failure_prefix(path@).len() as int) =~= parse_failure_prefix(path@));
                return Err(m);
            },
        };
        Ok(BookFields { src, title })
    } else if same_chars(&ext, &chars_of("js")) || same_chars(&ext, &chars_of("json")) {
        let src = match json_string_at(content, "root") {
            Ok(v) => v,
            Err(e) => {
                let m = parse_failure(path, e.to_string());
                assert(m@.take(parse_failure_prefix(path@).len() as int) =~= parse_failure_prefix(path@));
                return Err(m);
            },
        };
        let title = match json_string_at(content, "title") {
            Ok(v) => v,
            Err(e) => {
                let m = parse_failure(path, e.to_string());
                assert(m@.take(parse_failure_prefix(path@).len() as int) =~= parse_failure_prefix(path@));
                return Err(m);
            },
        };
        Ok(BookFields { src, title })
    } else {
        Ok(BookFields { src: None, title: None })
    }
}

/// What a configuration changes in the options.
pub struct ConfigChange {
    pub dir: Option<String>,
    pub title: Option<String>,
}

/// The notes directory becomes the configured source directory when it is
/// still `.` and the source is not empty; the title becomes the configured
/// title when it is still `Summary`.
pub open spec fn config_change_spec(
    dir: Seq<char>,
    title: Seq<char>,
    src: Option<Seq<char>>,
    configured_title: Option<Seq<char>>,
) -> (Option<Seq<char>>, Option<Seq<char>>) {
    let new_dir = match src {
        Some(s) => if dir == "."@ && s.len() > 0 {
            Some(s)
        } else {
            None
        },
        None => None,
    };
    let new_title = match configured_title {
        Some(t) => if title == "Summary"@ {
            Some(t)
        } else {
            None
        },
        None => None,
    };
    (new_dir, new_title)
}

/// The notes directory follows the configuration whatever the title: where
/// it is still `.` and the configured source directory is not empty, the
/// source directory is taken; otherwise it is kept. The title follows the
/// configuration only where it is still `Summary`, whatever the directories.
pub proof fn law_config_change_parts(
    dir: Seq<char>,
    title: Seq<char>,
    other_title: Seq<char>,
    src: Option<Seq<char>>,
    other_src: Option<Seq<char>>,
    configured: Option<Seq<char>>,
    other_configured: Option<Seq<char>>,
)
    ensures
        config_change_spec(dir, title, src, configured).0 == config_change_spec(
            dir,
            other_title,
            src,
            other_configured,
        ).0,
        config_change_spec(dir, title, src, configured).1 == config_change_spec(
            "."@,
            title,
            other_src,
            configured,
        ).1,
        src is Some && src->0.len() > 0 ==> config_change_spec("."@, title, src, configured).0
            == src,
        dir != "."@ ==> config_change_spec(dir, title, src, configured).0 is None,
        src is None ==> config_change_spec(dir, title, src, configured).0 is None,
        configured is Some ==> config_change_spec(dir, "Summary"@, src, configured).1 == configured,
        title != "Summary"@ ==> config_change_spec(dir, title, src, configured).1 is None,
{
}

fn copy_string(s: &String) -> (r: String)
    ensures
        r@ == s@,
{
    string_of(&chars_of(s.as_str()))
}

/// The new notes directory and title, where the configuration changes them.
pub fn config_change(dir: &str, title: &str, fields: &BookFields) -> (r: ConfigChange)
    ensures
        (opt_string(r.dir), opt_string(r.title)) == config_change_spec(
            dir@,
            title@,
            opt_string(fields.src),
            opt_string(fields.title),
        ),
{
    let d = chars_of(dir);
    let t = chars_of(title);
    let new_dir = match &fields.src {
        Some(s) => {
            if same_chars(&d, &chars_of(".")) && s.as_str().unicode_len() > 0 {
                Some(copy_string(s))
            } else {
                None
            }
        },
        None => None,
    };
    let new_title = match &fields.title {
        Some(configured) => {
            if same_chars(&t, &chars_of("Summary")) {
                Some(copy_string(configured))
            } else {
                None
            }
        },
        None => None,
    };
    ConfigChange { dir: new_dir, title: new_title }
}

// ---------------------------------------------------------------------------
// Note files of a directory walk
// ---------------------------------------------------------------------------
/// A directory entry is hidden when its name starts with `.`.
pub open spec fn hidden_name(name: Seq<char>) -> bool {
    name.len() > 0 && name[0] == '.'
}

/// Whether a directory entry's name marks it hidden.
pub fn is_hidden_name(name: &str) -> (r: bool)
    ensures
        r == hidden_name(name@),
{
    let n = chars_of(name);
    n.len() > 0 && n[0] == '.'
}

/// A path (relative to the notes directory) is a note of the summary: it is
/// not empty, not the output file, not the top-level `readme.md` (in any
/// case) and ends with `.md` (in any case).
pub open spec fn is_note_entry(entry: Seq<char>, outputfile: Seq<char>) -> bool {
    entry.len() > 0 && entry != outputfile && lowercase(entry) != "readme.md"@ && has_suffix(
        lowercase(entry),
        ".md"@,
    )
}

/// Whether a relative path is a note of the summary.
pub fn is_summary_entry(entry: &str, outputfile: &str) -> (r: bool)
    ensures
        r == is_note_entry(entry@, outputfile@),
{
    let e = chars_of(entry);
    let o = chars_of(outputfile);
    if e.len() == 0 || same_chars(&e, &o) {
        return false;
    }
    let lower = to_lowercase(&e);
    !same_chars(&lower, &chars_of("readme.md")) && ends_with(&lower, &chars_of(".md"))
}

/// The notes among the relative paths of a directory walk, in walk order.
pub fn select_entries(paths: &[String], outputfile: &str) -> (r: Vec<String>)
    ensures
        crate::text::string_views(r@) == crate::text::string_views(paths@).filter(
            |e: Seq<char>| is_note_entry(e, outputfile@),
        ),
{
    let ghost all = crate::text::string_views(paths@);
    let ghost keep = |e: Seq<char>| is_note_entry(e, outputfile@);
    let mut out: Vec<String> = Vec::new();
    let mut i: usize = 0;
    while i < paths.len()
        invariant
            i <= paths@.len(),
            all == crate::text::string_views(paths@),
            keep == (|e: Seq<char>| is_note_entry(e, outputfile@)),
            crate::text::string_views(out@) == all.take(i as int).filter(keep),
        decreases paths.len() - i,
    {
        proof {
            assert(all.take(i + 1).drop_last() =~= all.take(i as int));
            reveal_with_fuel(Seq::filter, 1);
        }
        let ghost before = crate::text::string_views(out@);
        if is_summary_entry(paths[i].as_str(), outputfile) {
            let kept = copy_string(&paths[i]);
            out.push(kept);
            assert(crate::text::string_views(out@) =~= before.push(kept@));
        }
        i += 1;
    }
    assert(all.take(paths@.len() as int) =~= all);
    out
}

} // verus!
