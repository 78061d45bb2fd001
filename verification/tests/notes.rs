use book_summary::config::{config_change, is_hidden_name, is_summary_entry, read_book_config, select_entries};
use book_summary::marker::summary_file_content;

fn strings(paths: &[&str]) -> Vec<String> {
    paths.iter().map(|path| path.to_string()).collect()
}

// The walk of ./examples/gitbook/book, relative to the book directory.
#[test]
fn get_file_list_test() {
    let walked = strings(&[
        "",
        "README.md",
        "SUMMARY.md",
        "about.md",
        "book.json",
        "chapter1",
        "chapter1/FILE.md",
        "chapter1/file1.md",
        "chapter2",
        "chapter2/FILE1.md",
        "chapter2/README.md",
        "chapter2/file2.md",
        "chapter2/subchap",
        "chapter2/subchap/info.md",
        "chapter3",
        "chapter3/file1.md",
        "chapter3/file2.md",
        "chapter3/file3.md",
    ]);
    let expected = strings(&[
        "about.md",
        "chapter1/FILE.md",
        "chapter1/file1.md",
        "chapter2/FILE1.md",
        "chapter2/README.md",
        "chapter2/file2.md",
        "chapter2/subchap/info.md",
        "chapter3/file1.md",
        "chapter3/file2.md",
        "chapter3/file3.md",
    ]);
    assert_eq!(expected, select_entries(&walked, "SUMMARY.md"));
}

#[test]
fn get_dir_only_collects_markdown_files() {
    let walked = strings(&["", "README.md", "SUMMARY.md", "chapter.md", "draft.md.bak"]);
    assert_eq!(vec!["chapter.md".to_string()], select_entries(&walked, "SUMMARY.md"));
}

#[test]
fn summary_entries_ignore_case_of_extension_and_readme() {
    assert!(is_summary_entry("Notes.MD", "SUMMARY.md"));
    assert!(!is_summary_entry("readme.md", "SUMMARY.md"));
    assert!(!is_summary_entry("ReadMe.Md", "SUMMARY.md"));
    assert!(is_summary_entry("sub/README.md", "SUMMARY.md"));
    assert!(!is_summary_entry("SUMMARY.md", "SUMMARY.md"));
    assert!(is_summary_entry("summary.md", "SUMMARY.md"));
    assert!(!is_summary_entry("", "SUMMARY.md"));
}

#[test]
fn hidden_names_start_with_dot() {
    assert!(is_hidden_name(".git"));
    assert!(is_hidden_name("."));
    assert!(!is_hidden_name("notes.md"));
    assert!(!is_hidden_name(""));
}

#[test]
fn parse_config_test() {
    let booktoml = "[book]\ntitle = \"MyMDBook\"\nsrc = \"src\"\n";
    let fields = read_book_config("toml", booktoml, "./examples/mdbook/book.toml").unwrap();
    let change = config_change(".", "Summary", &fields);
    assert_eq!(Some("src".to_string()), change.dir);
    assert_eq!(Some("MyMDBook".to_string()), change.title);

    let bookjson = "{\"title\": \"My title\", \"root\": \"book\"}";
    let fields = read_book_config("json", bookjson, "./examples/gitbook/book.json").unwrap();
    let change = config_change(".", "Summary", &fields);
    assert_eq!(Some("book".to_string()), change.dir);
    assert_eq!(Some("My title".to_string()), change.title);
}

#[test]
fn parse_config_accepts_mdbook_config_with_empty_src() {
    let content = r#"[book]
authors = ["Example Author"]
language = "zh-CN"
src = ""
title = "Example Book"
site-url = "/example-book/"

[output.html]
no-section-label = true
git-repository-url = "https://example.com/example/book"

[output.html.print]
enable = false

[output.html.fold]
enable = true
level = 10

[preprocessor.chapter-list]
ignored-files = ["chapters/volume-0/markdown.md"]
"#;
    let fields = read_book_config("toml", content, "book.toml").unwrap();
    let change = config_change(".", "Summary", &fields);
    assert_eq!(None, change.dir);
    assert_eq!(Some("Example Book".to_string()), change.title);
}

#[test]
fn parse_config_accepts_toml_without_book_section() {
    let content = "[output.html]\nno-section-label = true\n";
    let fields = read_book_config("toml", content, "book.toml").unwrap();
    let change = config_change(".", "Summary", &fields);
    assert_eq!(None, change.dir);
    assert_eq!(None, change.title);
}

#[test]
fn parse_config_reports_invalid_content() {
    let toml_err = read_book_config("toml", "book = [", "dir/book.toml");
    let json_err = read_book_config("json", "{", "dir/book.json");
    assert!(toml_err.is_err());
    assert!(json_err.is_err());
    assert!(toml_err.err().unwrap().starts_with("无法解析 dir/book.toml："));
    assert!(json_err.err().unwrap().starts_with("无法解析 dir/book.json："));
}

#[test]
fn config_keeps_explicit_options() {
    let fields = read_book_config("js", "{\"root\": \"book\", \"title\": \"T\"}", "book.js").unwrap();
    let change = config_change("notes", "Mine", &fields);
    assert_eq!(None, change.dir);
    assert_eq!(None, change.title);
    let other = read_book_config("yaml", "not parsed", "book.yaml").unwrap();
    assert_eq!(None, other.src);
    assert_eq!(None, other.title);
}

#[test]
fn create_file_writes_and_updates_marker_content() {
    let first = summary_file_content(None, "# First", None);
    assert_eq!("# First", first);

    let marked = summary_file_content(None, "# Generated", Some("auto"));
    assert_eq!(
        "<!-- book-summary-start-auto -->\n# Generated\n<!-- book-summary-end-auto -->",
        marked
    );

    let updated = summary_file_content(Some(&marked), "# Updated", Some("auto"));
    assert_eq!(
        "<!-- book-summary-start-auto --># Updated\n<!-- book-summary-end-auto -->",
        updated
    );
}
