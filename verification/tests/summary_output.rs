use book_summary::book::{Chapter, Format};
use book_summary::marker::{update_partial_summary, wrap_with_marker};

const TITLE: &str = "Summary";
const FORMAT: Format = Format::Git('*');
const LIST_CHAR: char = '*';

fn files(paths: &[&str]) -> Vec<String> {
    paths.iter().map(|path| path.to_string()).collect()
}

fn book(paths: &[&str]) -> Chapter {
    Chapter::new(TITLE.to_string(), &files(paths), false)
}

#[test]
fn md_output_onefile_test() {
    // only one file
    let expected: &str = &format!("# {}\n\n{} [File1](file1.md)\n", TITLE, LIST_CHAR);

    assert_eq!(
        expected,
        book(&["file1.md"]).get_summary_file(&FORMAT, &None, false)
    );
}

#[test]
fn md_output_empty_book_test() {
    assert_eq!(
        "# Summary\n\n",
        book(&[]).get_summary_file(&FORMAT, &None, false)
    );
}

#[test]
fn md_output_onechapter_test() {
    let expected: &str = &format!(
        "# {0}\n\n{1} [File1](file1.md)\n{1} Chapter1\n    {1} [File1](chapter1/file1.md)\n",
        TITLE, LIST_CHAR
    );

    assert_eq!(
        expected,
        book(&["file1.md", "chapter1/file1.md"]).get_summary_file(&FORMAT, &None, false)
    );
}

#[test]
fn md_output_subchapter_test() {
    let expected: &str = &format!(
        "# {0}\n\n{1} Chapter1\n    {1} [File1](chapter1/file1.md)\n    {1} Subchap\n        {1} [File1](chapter1/subchap/file1.md)\n",
        TITLE, LIST_CHAR
    );

    assert_eq!(
        expected,
        book(&["chapter1/file1.md", "chapter1/subchap/file1.md"])
            .get_summary_file(&FORMAT, &None, false)
    );
}

#[test]
fn md_simple_structure_test() {
    let input = files(&[
        "part1/README.md",
        "part1/WritingIsGood.md",
        "part1/GitbookIsNice.md",
        "part2/README.md",
        "part2/First_part_of_part_2.md",
        "part2/Second_part_of_part_2.md",
    ]);

    let expected = r#"# Summary

* [Part1](part1/README.md)
    * [WritingIsGood](part1/WritingIsGood.md)
    * [GitbookIsNice](part1/GitbookIsNice.md)
* [Part2](part2/README.md)
    * [First Part of Part 2](part2/First_part_of_part_2.md)
    * [Second Part of Part 2](part2/Second_part_of_part_2.md)
"#;

    let book = Chapter::new(TITLE.to_string(), &input, false);

    assert_eq!(expected, book.get_summary_file(&FORMAT, &None, false));
}

#[test]
fn marker_helpers_wrap_append_and_replace_content() {
    let wrapped = wrap_with_marker("# Generated", "auto");
    assert_eq!(
        "<!-- book-summary-start-auto -->\n# Generated\n<!-- book-summary-end-auto -->",
        wrapped
    );

    let without_markers = "# Manual";
    assert_eq!(
        "# Manual\n\n<!-- book-summary-start-auto -->\n# Generated\n<!-- book-summary-end-auto -->",
        update_partial_summary(without_markers, "# Generated", "auto")
    );

    let existing = "# Manual\n<!-- book-summary-start-auto -->\nold\n<!-- book-summary-end-auto -->\n# End";
    assert_eq!(
        "# Manual\n<!-- book-summary-start-auto --># Generated\n<!-- book-summary-end-auto -->\n# End",
        update_partial_summary(existing, "# Generated", "auto")
    );
}

#[test]
fn sort_chapter_test() {
    let input = files(&[
        "part1/README.md",
        "part1/WritingIsGood.md",
        "part2/GitbookIsNice.md",
        "part2/README.md",
        "part3/file.md",
        "part4/file.md",
    ]);

    let expected = r#"# Summary

* Part4
    * [File](part4/file.md)
* Part3
    * [File](part3/file.md)
* [Part1](part1/README.md)
    * [WritingIsGood](part1/WritingIsGood.md)
* [Part2](part2/README.md)
    * [GitbookIsNice](part2/GitbookIsNice.md)
"#;

    let book = Chapter::new(TITLE.to_string(), &input, false);

    assert_eq!(
        expected,
        book.get_summary_file(
            &FORMAT,
            &Some(vec![
                "PART4".to_string(),
                "part5".to_string(),
                "part3".to_string()
            ]),
            false
        )
    );
}

// Updating a freshly wrapped block replaces it, and updating again changes nothing.
#[test]
fn marker_update_replaces_block_and_is_stable() {
    let wrapped = wrap_with_marker("old\ntext", "m");
    let once = update_partial_summary(&wrapped, "new", "m");
    assert_eq!("<!-- book-summary-start-m -->new\n<!-- book-summary-end-m -->", once);
    assert_eq!(once, update_partial_summary(&once, "new", "m"));
}

#[test]
fn marker_update_keeps_text_around_block() {
    let existing = "head\n<!-- book-summary-start-x -->\nold\n<!-- book-summary-end-x -->\ntail\n";
    assert_eq!(
        "head\n<!-- book-summary-start-x -->fresh\n<!-- book-summary-end-x -->\ntail\n",
        update_partial_summary(existing, "fresh\n", "x")
    );
}

// Text before the end marker on its own line lies between the markers and is replaced.
#[test]
fn marker_update_replaces_text_before_end_marker_on_its_line() {
    let existing = "<!-- book-summary-start-auto -->\nold<!-- book-summary-end-auto -->";
    assert_eq!(
        "<!-- book-summary-start-auto --># New\n<!-- book-summary-end-auto -->",
        update_partial_summary(existing, "# New", "auto")
    );
}

#[test]
fn marker_update_with_only_one_marker_appends() {
    let existing = "<!-- book-summary-start-x -->\nold";
    assert_eq!(
        "<!-- book-summary-start-x -->\nold\n\n<!-- book-summary-start-x -->\nnew\n<!-- book-summary-end-x -->",
        update_partial_summary(existing, "new", "x")
    );
}

#[test]
fn preferred_chapter_named_twice_is_listed_twice() {
    let book = book(&["a/x.md", "b/y.md"]);
    assert_eq!(
        "# Summary\n\n* B\n    * [Y](b/y.md)\n* B\n    * [Y](b/y.md)\n* A\n    * [X](a/x.md)\n",
        book.get_summary_file(&FORMAT, &Some(vec!["b".to_string(), "B".to_string()]), false)
    );
}
