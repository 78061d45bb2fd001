use book_summary::book::{Chapter, FileHeader, Format};
use book_summary::header::first_header;
use book_summary::summary::{percent_encode_path, print_files_excluding};

fn files(paths: &[&str]) -> Vec<String> {
    paths.iter().map(|path| path.to_string()).collect()
}

#[test]
fn format_from_str_rejects_unknown_format() {
    assert_eq!(Ok(Format::Md('-')), "md".parse::<Format>());
    assert_eq!(Ok(Format::Git('*')), "git".parse::<Format>());
    assert_eq!(
        Err("不支持的格式：html".to_string()),
        "html".parse::<Format>()
    );
}

#[test]
fn print_files_test() {
    let files = files(&["0.1.ABcdc.md", "0.2.BcDAc.md", "0.10.bbdac.md"]);
    let expected = r#"- [0.1.ABcdc](0.1.ABcdc.md)
- [0.2.BcDAc](0.2.BcDAc.md)
- [0.10.bbdac](0.10.bbdac.md)
"#;
    assert_eq!(expected, print_files_excluding(&files, &[], &'-', 0, false, &[]));
}

#[test]
fn percent_encode_path_test() {
    let cases = [
        ("normal/path/file.md", "normal/path/file.md"),
        ("path with spaces/file.md", "<path with spaces/file.md>"),
        ("path#hash/file.md", "<path#hash/file.md>"),
        ("path [special]/file.md", "<path [special]/file.md>"),
    ];

    for (path, expected) in cases {
        assert_eq!(expected, percent_encode_path(path));
    }
}

#[test]
fn md_chapter_links_keep_nested_directory_path() {
    let input = files(&["A/A1/page.md"]);
    let book = Chapter::new("Summary".to_string(), &input, false);

    let expected = r#"# Summary

- [A](A.md)
    - [A1](A/A1.md)
        - [Page](A/A1/page.md)
"#;

    assert_eq!(
        expected,
        book.get_summary_file(&Format::Md('-'), &None, false)
    );
}

#[test]
fn md_markdown_named_chapter_uses_regular_link() {
    let input = files(&["Markdown/intro.md"]);
    let book = Chapter::new("Summary".to_string(), &input, false);

    let expected = r#"# Summary

- [Markdown](Markdown.md)
    - [Intro](Markdown/intro.md)
"#;

    assert_eq!(
        expected,
        book.get_summary_file(&Format::Md('-'), &None, false)
    );
}

#[test]
fn md_same_named_file_is_used_as_child_chapter_link_only_once() {
    let input = files(&[
        "volume/chapter/readme.md",
        "volume/chapter/markdown.md",
        "volume/chapter/markdown/intro.md",
    ]);
    let book = Chapter::new("Summary".to_string(), &input, false);

    let expected = r#"# Summary

- [Volume](volume.md)
    - [Chapter](volume/chapter/readme.md)
        - [Markdown](volume/chapter/markdown.md)
            - [Intro](volume/chapter/markdown/intro.md)
"#;

    assert_eq!(
        expected,
        book.get_summary_file(&Format::Md('-'), &None, false)
    );
}

#[test]
fn print_files_can_use_first_markdown_header() {
    let path = "notes/book-summary-header-chapter.md".to_string();
    let header = first_header("# Header Title\n\nBody").unwrap();
    let headers = vec![FileHeader { path: path.clone(), title: header }];
    let expected = format!("- [Header Title]({})\n", path);

    assert_eq!(expected, print_files_excluding(&[path], &[], &'-', 0, true, &headers));
}

// A recorded header is only used when headers are asked for.
#[test]
fn recorded_header_ignored_without_mdheader() {
    let headers = vec![FileHeader { path: "intro_page.md".to_string(), title: "Header".to_string() }];
    assert_eq!(
        "- [Intro Page](intro_page.md)\n",
        print_files_excluding(&files(&["intro_page.md"]), &[], &'-', 0, false, &headers)
    );
    assert_eq!(
        "- [Header](intro_page.md)\n",
        print_files_excluding(&files(&["intro_page.md"]), &[], &'-', 0, true, &headers)
    );
}

#[test]
fn first_header_takes_first_marked_line_trimmed() {
    assert_eq!(Some("Title".to_string()), first_header("intro\n#no\n# # Title  \r\n# Other"));
    assert_eq!(Some("".to_string()), first_header("# \n"));
    assert_eq!(None, first_header("#Title\n## Sub\n"));
    assert_eq!(None, first_header(""));
}

#[test]
fn print_files_skips_readme_and_excluded_and_indents() {
    let listed = files(&["a/README.md", "a/keep.md", "a/skip.md"]);
    assert_eq!(
        "        * [Keep](a/keep.md)\n",
        print_files_excluding(&listed, &files(&["a/skip.md"]), &'*', 2, false, &[])
    );
}

#[test]
fn git_chapter_without_readme_is_bare_title() {
    let book = Chapter::new("Book".to_string(), &files(&["part/page.md"]), false);
    assert_eq!(
        "# Book\n\n* Part\n    * [Page](part/page.md)\n",
        book.get_summary_file(&Format::Git('*'), &None, false)
    );
}

#[test]
fn md_chapter_page_taken_from_parent_file_with_same_stem() {
    let book = Chapter::new(
        "Book".to_string(),
        &files(&["Guide.md", "guide/step.md", "other.md"]),
        false,
    );
    assert_eq!(
        "# Book\n\n- [Other](other.md)\n- [Guide](Guide.md)\n    - [Step](guide/step.md)\n",
        book.get_summary_file(&Format::Md('-'), &None, false)
    );
}

#[test]
fn links_with_spaces_are_bracketed_in_summary() {
    let book = Chapter::new("Book".to_string(), &files(&["my notes.md"]), false);
    assert_eq!(
        "# Book\n\n- [My Notes](<my notes.md>)\n",
        book.get_summary_file(&Format::Md('-'), &None, false)
    );
}

#[test]
fn new_book_files_each_entry_once() {
    let book = Chapter::new(
        "Book".to_string(),
        &files(&["b/x.md", "a.md", "b/c/y.md", "b/w.md"]),
        true,
    );
    assert_eq!(vec!["a.md".to_string()], book.files);
    assert!(book.mdheader);
    assert_eq!(1, book.chapter.len());
    assert_eq!("b", book.chapter[0].name);
    // Names without numbers keep the order in which they were given.
    assert_eq!(vec!["b/x.md".to_string(), "b/w.md".to_string()], book.chapter[0].files);
    assert_eq!("c", book.chapter[0].chapter[0].name);
    assert_eq!(vec!["b/c/y.md".to_string()], book.chapter[0].chapter[0].files);
    assert!(!book.chapter[0].mdheader);
}

#[test]
fn sub_chapters_are_sorted_by_name() {
    let book = Chapter::new(
        "Book".to_string(),
        &files(&["zeta/a.md", "Alpha/b.md", "beta/c.md"]),
        false,
    );
    let names: Vec<&str> = book.chapter.iter().map(|c| c.name.as_str()).collect();
    assert_eq!(vec!["Alpha", "beta", "zeta"], names);
}
