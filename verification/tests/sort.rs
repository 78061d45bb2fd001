use book_summary::sort::{compare_paths, parse_filename, sort_paths};
use std::cmp::Ordering;

fn assert_sorted(input: &[&str], expected: &[&str]) {
    let mut paths: Vec<String> = input.iter().map(|path| path.to_string()).collect();
    paths.sort_by(|a, b| compare_paths(a, b));
    let expected: Vec<String> = expected.iter().map(|path| path.to_string()).collect();
    assert_eq!(expected, paths);
    let inserted = sort_paths(input.iter().map(|path| path.to_string()).collect());
    assert_eq!(expected, inserted);
}

#[test]
fn parse_structured_filename() {
    let filename = "0.1.131313.md";
    assert_eq!(
        Some((0, 1, "131313".to_string(), filename.to_string())),
        parse_filename(filename)
    );
}

#[test]
fn parse_filename_keeps_dots_of_title_and_rejects_others() {
    assert_eq!(
        Some((-2, 10, "a.b".to_string(), "dir/-2.+10.a.b.md".to_string())),
        parse_filename("dir/-2.+10.a.b.md")
    );
    assert_eq!(None, parse_filename("1.2.md"));
    assert_eq!(None, parse_filename("x.2.title.md"));
    assert_eq!(None, parse_filename("1.99999999999.title.md"));
}

#[test]
fn file_sort_cases() {
    let cases = [
        (
            &[
                "chapter10.md",
                "0.10.structured.md",
                "chapter2.md",
                "0.2.structured.md",
            ][..],
            &[
                "0.2.structured.md",
                "0.10.structured.md",
                "chapter2.md",
                "chapter10.md",
            ][..],
        ),
        (
            &[
                "第二十章.md",
                "第十章.md",
                "第2章.md",
                "第二章.md",
                "第11章.md",
            ][..],
            &[
                "第2章.md",
                "第二章.md",
                "第十章.md",
                "第11章.md",
                "第二十章.md",
            ][..],
        ),
        (
            &["第壹佰章.md", "第贰拾章.md", "第壹章.md", "第壹拾章.md"][..],
            &["第壹章.md", "第壹拾章.md", "第贰拾章.md", "第壹佰章.md"][..],
        ),
        (
            &[
                "第一万章.md",
                "第一千零二章.md",
                "第一百零一章.md",
                "第九十九章.md",
                "第二章.md",
                "第十一章.md",
            ][..],
            &[
                "第二章.md",
                "第十一章.md",
                "第九十九章.md",
                "第一百零一章.md",
                "第一千零二章.md",
                "第一万章.md",
            ][..],
        ),
        (
            &["第〇一〇章.md", "第九章.md", "第一二章.md", "第一〇一章.md"][..],
            &["第九章.md", "第〇一〇章.md", "第一二章.md", "第一〇一章.md"][..],
        ),
        (
            &[
                "番外10.md",
                "番外第二话.md",
                "番外第十一话.md",
                "番外3.md",
                "番外第壹佰话.md",
            ][..],
            &[
                "番外第二话.md",
                "番外3.md",
                "番外10.md",
                "番外第十一话.md",
                "番外第壹佰话.md",
            ][..],
        ),
        (
            &["zeta.md", "alpha.md", "middle.md"][..],
            &["zeta.md", "alpha.md", "middle.md"][..],
        ),
        (
            &["拾光仟陌.md", "普通文件.md", "仟山拾月.md"][..],
            &["拾光仟陌.md", "普通文件.md", "仟山拾月.md"][..],
        ),
        (
            &["五十载人.md", "普通文件.md", "二十面体.md"][..],
            &["五十载人.md", "普通文件.md", "二十面体.md"][..],
        ),
        (
            &["五十.标题.md", "第五十章.md", "二十.md", "第二十话.md"][..],
            &["二十.md", "第二十话.md", "第五十章.md", "五十.标题.md"][..],
        ),
        (
            &["第十辑.md", "第二册.md", "第三折.md"][..],
            &["第二册.md", "第三折.md", "第十辑.md"][..],
        ),
    ];

    for (input, expected) in cases {
        assert_sorted(input, expected);
    }
}

#[test]
fn structured_before_numbered_before_plain() {
    assert_eq!(Ordering::Less, compare_paths("1.1.a.md", "chapter1.md"));
    assert_eq!(Ordering::Greater, compare_paths("chapter1.md", "1.1.a.md"));
    assert_eq!(Ordering::Less, compare_paths("chapter1.md", "notes.md"));
    assert_eq!(Ordering::Equal, compare_paths("notes.md", "alpha.md"));
    assert_eq!(Ordering::Less, compare_paths("1.2.b.md", "1.10.a.md"));
    assert_eq!(Ordering::Less, compare_paths("1.2.a.md", "1.2.b.md"));
}

#[test]
fn unsortable_chinese_numeral_keeps_plain_order() {
    // 弍 is a digit character of the numeral run but chinese_number refuses it.
    assert_eq!(Ordering::Equal, compare_paths("弍.md", "notes.md"));
}
