//! The summary text of a book: a title, the top-level files, then one
//! nested list per chapter.
use vstd::prelude::*;
use crate::book::{Chapter, ChapterModel, FileHeader, Format, chapter_views, lemma_chapter_view, list_char_of};
use crate::seqs::{first_index, lemma_first_index, lemma_first_index_is, lemma_first_index_none};
use crate::sort::{parse_parts, structured_parts};
use crate::text::{
    chars_of, ends_with, file_stem, has_suffix, is_space, is_whitespace, join_chars, join_with,
    lowercase, opt_text, path_file_stem, push_all, replace_char, replace_chars, same_ignoring_ascii_case,
    same_ignoring_case, slice_of, split_chars, split_on, string_of, string_views, texts, title_case,
    titlecase, to_lowercase,
};

verus! {

// ---------------------------------------------------------------------------
// Lines of the summary
// ---------------------------------------------------------------------------
/// `n` spaces.
pub open spec fn spaces(n: nat) -> Seq<char> {
    Seq::new(n, |i: int| ' ')
}

/// `/readme.md`
pub open spec fn readme_suffix() -> Seq<char> {
    seq!['/', 'r', 'e', 'a', 'd', 'm', 'e', '.', 'm', 'd']
}

/// `.md`
pub open spec fn md_extension() -> Seq<char> {
    seq!['.', 'm', 'd']
}

/// A path names a readme file: in lower case it ends with `/readme.md`.
pub open spec fn is_readme(f: Seq<char>) -> bool {
    has_suffix(lowercase(f), readme_suffix())
}

/// Characters that a link target cannot hold bare in Markdown.
pub open spec fn needs_brackets(c: char) -> bool {
    is_space(c) || c == '#' || c == '[' || c == ']' || c == '<' || c == '>'
}

/// A link target: the path itself, or the path in angle brackets where it
/// holds whitespace or one of `#[]<>`.
pub open spec fn link_target(p: Seq<char>) -> Seq<char> {
    if exists|i: int| 0 <= i < p.len() && needs_brackets(#[trigger] p[i]) {
        seq!['<'] + p + seq!['>']
    } else {
        p
    }
}

/// A list item that links `title` to `target`: `- [title](target)`.
pub open spec fn link_line(lc: char, title: Seq<char>, target: Seq<char>) -> Seq<char> {
    seq![lc, ' ', '['] + title + seq![']', '('] + link_target(target) + seq![')', '\n']
}

/// The title shown for a note file: the stem of a structured name as it is,
/// any other stem title-cased with underscores read as spaces.
pub open spec fn display_title(f: Seq<char>) -> Seq<char> {
    let stem = match path_file_stem(f) {
        Some(s) => s,
        None => f,
    };
    if structured_parts(f) is Some {
        stem
    } else {
        title_case(replace_char(stem, '_', ' '))
    }
}

/// The recorded header of a file: the first entry for its path.
pub open spec fn header_of(headers: Seq<(Seq<char>, Seq<char>)>, f: Seq<char>) -> Option<Seq<char>> {
    match first_index(headers, |h: (Seq<char>, Seq<char>)| h.0 == f) {
        Some(k) => Some(headers[k].1),
        None => None,
    }
}

/// The title of a file in the summary: its recorded header when headers are
/// asked for and one is recorded, its display title otherwise.
pub open spec fn file_title(f: Seq<char>, mdheader: bool, headers: Seq<(Seq<char>, Seq<char>)>) -> Seq<
    char,
> {
    if mdheader {
        match header_of(headers, f) {
            Some(h) => h,
            None => display_title(f),
        }
    } else {
        display_title(f)
    }
}

/// The list of files: one line per file, in order, leaving out readme files
/// and the files in `excluded`.
pub open spec fn listed_files(
    files: Seq<Seq<char>>,
    excluded: Seq<Seq<char>>,
    lc: char,
    pad: Seq<char>,
    mdheader: bool,
    headers: Seq<(Seq<char>, Seq<char>)>,
) -> Seq<char>
    decreases files.len(),
{
    if files.len() == 0 {
        Seq::<char>::empty()
    } else {
        let prev = listed_files(files.drop_last(), excluded, lc, pad, mdheader, headers);
        let f = files.last();
        if is_readme(f) || excluded.contains(f) {
            prev
        } else {
            prev + pad + link_line(lc, file_title(f, mdheader, headers), f)
        }
    }
}

// ---------------------------------------------------------------------------
// Chapter links
// ---------------------------------------------------------------------------
/// A file whose stem is the given name, ignoring ASCII case.
pub open spec fn stem_is(name: Seq<char>) -> spec_fn(Seq<char>) -> bool {
    |f: Seq<char>|
        match path_file_stem(f) {
            Some(stem) => same_ignoring_ascii_case(stem, name),
            None => false,
        }
}

/// In the mdBook format, the first file of the parent whose stem is the
/// child's name serves as the child's page.
pub open spec fn child_link(files: Seq<Seq<char>>, name: Seq<char>, md: bool) -> Option<Seq<char>> {
    if !md {
        None
    } else {
        match first_index(files, stem_is(name)) {
            Some(k) => Some(files[k]),
            None => None,
        }
    }
}

/// The files that serve as pages of the sub-chapters, in chapter order.
pub open spec fn linked_files(files: Seq<Seq<char>>, cs: Seq<ChapterModel>, md: bool) -> Seq<
    Seq<char>,
>
    decreases cs.len(),
{
    if cs.len() == 0 {
        Seq::<Seq<char>>::empty()
    } else {
        let prev = linked_files(files, cs.drop_last(), md);
        match child_link(files, cs.last().name, md) {
            Some(l) => prev.push(l),
            None => prev,
        }
    }
}

/// The first file of the chapter, looking into sub-chapters in order where
/// it has none of its own.
pub open spec fn first_content(c: ChapterModel) -> Option<Seq<char>>
    decreases c,
{
    if c.files.len() > 0 {
        Some(c.files[0])
    } else {
        first_content_in(c.chapters)
    }
}

/// The first content path found in a sequence of chapters.
pub open spec fn first_content_in(cs: Seq<ChapterModel>) -> Option<Seq<char>>
    decreases cs,
{
    if cs.len() == 0 {
        None
    } else {
        match first_content_in(cs.drop_last()) {
            Some(p) => Some(p),
            None => first_content(cs[cs.len() - 1]),
        }
    }
}

/// The page a chapter without one links to: the path of its first content
/// cut after the first component equal to the chapter's name, plus `.md`.
pub open spec fn inferred_link(c: ChapterModel) -> Option<Seq<char>> {
    match first_content(c) {
        None => None,
        Some(p) => {
            let comps = split_on(p, '/');
            match first_index(comps, |x: Seq<char>| x == c.name) {
                Some(i) => Some(join_with(comps.take(i + 1), '/') + md_extension()),
                None => None,
            }
        },
    }
}

/// The first readme file of a chapter.
pub open spec fn first_readme(files: Seq<Seq<char>>) -> Option<Seq<char>> {
    match first_index(files, |f: Seq<char>| is_readme(f)) {
        Some(k) => Some(files[k]),
        None => None,
    }
}

/// The line that opens a chapter: a link to the given page, else to its
/// readme; else, in mdBook, to the inferred page or `Title.md`; else, in
/// GitBook, the bare title.
pub open spec fn chapter_line(c: ChapterModel, md: bool, lc: char, link_override: Option<Seq<char>>) -> Seq<
    char,
> {
    let title = title_case(c.name);
    let link = match link_override {
        Some(l) => Some(l),
        None => first_readme(c.files),
    };
    match link {
        Some(l) => link_line(lc, title, l),
        None => if md {
            let page = match inferred_link(c) {
                Some(l) => l,
                None => title + md_extension(),
            };
            link_line(lc, title, page)
        } else {
            seq![lc, ' '] + title + seq!['\n']
        },
    }
}

/// The nested list of a chapter: its line, its files one level deeper (its
/// readme and its sub-chapters' pages left out), then each sub-chapter.
pub open spec fn tree(
    c: ChapterModel,
    format: Format,
    pad: Seq<char>,
    mdheader: bool,
    headers: Seq<(Seq<char>, Seq<char>)>,
    link_override: Option<Seq<char>>,
) -> Seq<char>
    decreases c,
{
    let md = format is Md;
    let lc = list_char_of(format);
    let deeper = pad + spaces(4);
    pad + chapter_line(c, md, lc, link_override) + listed_files(
        c.files,
        linked_files(c.files, c.chapters, md),
        lc,
        deeper,
        mdheader,
        headers,
    ) + subtrees(c.files, c.chapters, format, deeper, mdheader, headers)
}

/// The nested lists of a sequence of sibling chapters whose parent holds
/// `files`.
pub open spec fn subtrees(
    files: Seq<Seq<char>>,
    cs: Seq<ChapterModel>,
    format: Format,
    pad: Seq<char>,
    mdheader: bool,
    headers: Seq<(Seq<char>, Seq<char>)>,
) -> Seq<char>
    decreases cs,
{
    if cs.len() == 0 {
        Seq::<char>::empty()
    } else {
        let last = cs[cs.len() - 1];
        subtrees(files, cs.drop_last(), format, pad, mdheader, headers) + tree(
            last,
            format,
            pad,
            mdheader,
            headers,
            child_link(files, last.name, format is Md),
        )
    }
}

// ---------------------------------------------------------------------------
// The whole summary
// ---------------------------------------------------------------------------
/// The first sub-chapter whose name equals `name` in lower case.
pub open spec fn preferred_index(cs: Seq<ChapterModel>, name: Seq<char>) -> Option<int> {
    first_index(cs, |ch: ChapterModel| lowercase(ch.name) == lowercase(name))
}

/// The lists of the preferred chapters, in the order of the names given.
pub open spec fn preferred_trees(
    c: ChapterModel,
    names: Seq<Seq<char>>,
    format: Format,
    mdheader: bool,
    headers: Seq<(Seq<char>, Seq<char>)>,
) -> Seq<char>
    decreases names.len(),
{
    if names.len() == 0 {
        Seq::<char>::empty()
    } else {
        let prev = preferred_trees(c, names.drop_last(), format, mdheader, headers);
        match preferred_index(c.chapters, names.last()) {
            Some(k) => prev + tree(
                c.chapters[k],
                format,
                Seq::<char>::empty(),
                mdheader,
                headers,
                child_link(c.files, c.chapters[k].name, format is Md),
            ),
            None => prev,
        }
    }
}

/// A chapter is preferred when one of the names equals its name ignoring
/// ASCII case.
pub open spec fn is_preferred(name: Seq<char>, preferred: Option<Seq<Seq<char>>>) -> bool {
    match preferred {
        Some(names) => exists|j: int|
            0 <= j < names.len() && same_ignoring_ascii_case(#[trigger] names[j], name),
        None => false,
    }
}

/// The lists of the chapters that are not preferred, in chapter order.
pub open spec fn other_trees(
    files: Seq<Seq<char>>,
    cs: Seq<ChapterModel>,
    format: Format,
    preferred: Option<Seq<Seq<char>>>,
    mdheader: bool,
    headers: Seq<(Seq<char>, Seq<char>)>,
) -> Seq<char>
    decreases cs.len(),
{
    if cs.len() == 0 {
        Seq::<char>::empty()
    } else {
        let prev = other_trees(files, cs.drop_last(), format, preferred, mdheader, headers);
        let last = cs.last();
        if is_preferred(last.name, preferred) {
            prev
        } else {
            prev + tree(
                last,
                format,
                Seq::<char>::empty(),
                mdheader,
                headers,
                child_link(files, last.name, format is Md),
            )
        }
    }
}

/// The summary of a book: `# name`, a blank line, the top-level files, the
/// preferred chapters in the order given, then the other chapters.
pub open spec fn summary(
    c: ChapterModel,
    format: Format,
    preferred: Option<Seq<Seq<char>>>,
    mdheader: bool,
    headers: Seq<(Seq<char>, Seq<char>)>,
) -> Seq<char> {
    let md = format is Md;
    seq!['#', ' '] + c.name + seq!['\n', '\n'] + listed_files(
        c.files,
        linked_files(c.files, c.chapters, md),
        list_char_of(format),
        Seq::<char>::empty(),
        mdheader,
        headers,
    ) + match preferred {
        Some(names) => preferred_trees(c, names, format, mdheader, headers),
        None => Seq::<char>::empty(),
    } + other_trees(c.files, c.chapters, format, preferred, mdheader, headers)
}

/// The recorded headers as pairs of path and title.
pub open spec fn header_views(h: Seq<FileHeader>) -> Seq<(Seq<char>, Seq<char>)> {
    Seq::new(h.len(), |i: int| (h[i].path@, h[i].title@))
}

/// The preferred names as texts.
pub open spec fn preferred_view(p: Option<Vec<String>>) -> Option<Seq<Seq<char>>> {
    match p {
        Some(v) => Some(string_views(v@)),
        None => None,
    }
}

// ---------------------------------------------------------------------------
// Writing lines
// ---------------------------------------------------------------------------
/// `4 * indent` spaces.
fn indent_pad(indent: usize) -> (r: Vec<char>)
    ensures
        r@ == spaces(4 * indent as nat),
{
    let mut r: Vec<char> = Vec::new();
    let mut i: usize = 0;
    while i < indent
        invariant
            i <= indent,
            r@ == spaces(4 * i as nat),
        decreases indent - i,
    {
        r.push(' ');
        r.push(' ');
        r.push(' ');
        r.push(' ');
        i += 1;
        assert(r@ =~= spaces(4 * i as nat));
    }
    r
}

/// The padding one level deeper.
fn deeper_pad(pad: &Vec<char>) -> (r: Vec<char>)
    ensures
        r@ == pad@ + spaces(4),
{
    let mut r: Vec<char> = Vec::new();
    push_all(&mut r, pad);
    r.push(' ');
    r.push(' ');
    r.push(' ');
    r.push(' ');
    assert(r@ =~= pad@ + spaces(4));
    r
}

fn needs_brackets_char(c: char) -> (r: bool)
    ensures
        r == needs_brackets(c),
{
    is_whitespace(c) || c == '#' || c == '[' || c == ']' || c == '<' || c == '>'
}

/// The link target for a path.
fn encode_link(p: &Vec<char>) -> (r: Vec<char>)
    ensures
        r@ == link_target(p@),
{
    let mut needs = false;
    let mut i: usize = 0;
    while i < p.len()
        invariant
            i <= p@.len(),
            needs == exists|j: int| 0 <= j < i && needs_brackets(#[trigger] p@[j]),
        decreases p.len() - i,
    {
        if needs_brackets_char(p[i]) {
            needs = true;
        }
        i += 1;
    }
    let mut r: Vec<char> = Vec::new();
    if needs {
        r.push('<');
        push_all(&mut r, p);
        r.push('>');
        assert(r@ =~= seq!['<'] + p@ + seq!['>']);
    } else {
        push_all(&mut r, p);
        assert(r@ =~= p@);
    }
    r
}

/// A path as a Markdown link target: wrapped in angle brackets when it holds
/// whitespace or one of `#[]<>`, unchanged otherwise.
pub fn percent_encode_path(path: &str) -> (r: String)
    ensures
        r@ == link_target(path@),
{
    let p = chars_of(path);
    string_of(&encode_link(&p))
}

/// Appends `lc [title](target)` and a line break.
fn push_link_line(out: &mut Vec<char>, lc: char, title: &Vec<char>, target: &Vec<char>)
    ensures
        final(out)@ == old(out)@ + link_line(lc, title@, target@),
{
    let ghost start = out@;
    out.push(lc);
    out.push(' ');
    out.push('[');
    push_all(out, title);
    out.push(']');
    out.push('(');
    let t = encode_link(target);
    push_all(out, &t);
    out.push(')');
    out.push('\n');
    assert(out@ =~= start + link_line(lc, title@, target@));
}

fn readme_suffix_chars() -> (r: Vec<char>)
    ensures
        r@ == readme_suffix(),
{
    let r = vec!['/', 'r', 'e', 'a', 'd', 'm', 'e', '.', 'm', 'd'];
    assert(r@ =~= readme_suffix());
    r
}

fn is_readme_path(f: &Vec<char>) -> (r: bool)
    ensures
        r == is_readme(f@),
{
    let lower = to_lowercase(f);
    ends_with(&lower, &readme_suffix_chars())
}

/// The title shown for a note file.
fn get_display_title(file_path: &Vec<char>) -> (r: Vec<char>)
    ensures
        r@ == display_title(file_path@),
{
    let stem = match file_stem(file_path) {
        Some(stem) => stem,
        None => slice_of(file_path, 0, file_path.len()),
    };
    assert(stem@ == match path_file_stem(file_path@) {
        Some(s) => s,
        None => file_path@,
    }) by {
        assert(file_path@.subrange(0, file_path@.len() as int) =~= file_path@);
    }
    if parse_parts(file_path).is_some() {
        stem
    } else {
        titlecase(&replace_chars(&stem, '_', ' '))
    }
}

/// The recorded header of a file.
fn header_for(headers: &[FileHeader], f: &Vec<char>) -> (r: Option<Vec<char>>)
    ensures
        opt_text(r) == header_of(header_views(headers@), f@),
{
    let ghost hv = header_views(headers@);
    let ghost p = |h: (Seq<char>, Seq<char>)| h.0 == f@;
    let mut i: usize = 0;
    while i < headers.len()
        invariant
            i <= headers@.len(),
            hv == header_views(headers@),
            p == (|h: (Seq<char>, Seq<char>)| h.0 == f@),
            forall|j: int| 0 <= j < i ==> !p(#[trigger] hv[j]),
        decreases headers.len() - i,
    {
        let path = chars_of(headers[i].path.as_str());
        if crate::book::same_chars(&path, f) {
            proof {
                lemma_first_index_is(hv, p, i as int);
            }
            return Some(chars_of(headers[i].title.as_str()));
        }
        i += 1;
    }
    proof {
        lemma_first_index_none(hv, p);
    }
    None
}

/// The title of a file in the summary.
fn title_for(f: &Vec<char>, mdheader: bool, headers: &[FileHeader]) -> (r: Vec<char>)
    ensures
        r@ == file_title(f@, mdheader, header_views(headers@)),
{
    if mdheader {
        match header_for(headers, f) {
            Some(header) => header,
            None => get_display_title(f),
        }
    } else {
        get_display_title(f)
    }
}

fn contains_text(list: &Vec<Vec<char>>, x: &Vec<char>) -> (r: bool)
    ensures
        r == texts(list@).contains(x@),
{
    let mut i: usize = 0;
    while i < list.len()
        invariant
            i <= list@.len(),
            forall|j: int| 0 <= j < i ==> texts(list@)[j] != x@,
        decreases list.len() - i,
    {
        if crate::book::same_chars(&list[i], x) {
            assert(texts(list@)[i as int] == x@);
            return true;
        }
        i += 1;
    }
    false
}

/// The lines of the files, leaving out readme files and `excluded`.
fn list_files(
    files: &[String],
    excluded: &Vec<Vec<char>>,
    lc: char,
    pad: &Vec<char>,
    mdheader: bool,
    headers: &[FileHeader],
) -> (r: Vec<char>)
    ensures
        r@ == listed_files(
            string_views(files@),
            texts(excluded@),
            lc,
            pad@,
            mdheader,
            header_views(headers@),
        ),
{
    let ghost all = string_views(files@);
    let ghost ex = texts(excluded@);
    let ghost hv = header_views(headers@);
    let mut out: Vec<char> = Vec::new();
    let mut i: usize = 0;
    while i < files.len()
        invariant
            i <= files@.len(),
            all == string_views(files@),
            ex == texts(excluded@),
            hv == header_views(headers@),
            out@ == listed_files(all.take(i as int), ex, lc, pad@, mdheader, hv),
        decreases files.len() - i,
    {
        let f = chars_of(files[i].as_str());
        proof {
            assert(all.take(i + 1).drop_last() =~= all.take(i as int));
            assert(all.take(i + 1).last() == f@);
        }
        if !is_readme_path(&f) && !contains_text(excluded, &f) {
            let title = title_for(&f, mdheader, headers);
            let ghost before = out@;
            push_all(&mut out, pad);
            push_link_line(&mut out, lc, &title, &f);
            assert(out@ =~= before + pad@ + link_line(lc, title@, f@));
        }
        i += 1;
    }
    assert(all.take(files@.len() as int) =~= all);
    out
}

/// The list lines of `files` at `indent` levels, leaving out readme files
/// and `excluded_files`; with `mdheader`, a file's title is its recorded
/// first header where `headers` holds one.
pub fn print_files_excluding(
    files: &[String],
    excluded_files: &[String],
    list_char: &char,
    indent: usize,
    mdheader: bool,
    headers: &[FileHeader],
) -> (r: String)
    ensures
        r@ == listed_files(
            string_views(files@),
            string_views(excluded_files@),
            *list_char,
            spaces(4 * indent as nat),
            mdheader,
            header_views(headers@),
        ),
{
    let mut excluded: Vec<Vec<char>> = Vec::new();
    let mut i: usize = 0;
    while i < excluded_files.len()
        invariant
            i <= excluded_files@.len(),
            texts(excluded@) == string_views(excluded_files@).take(i as int),
        decreases excluded_files.len() - i,
    {
        let ghost before = texts(excluded@);
        let x = chars_of(excluded_files[i].as_str());
        excluded.push(x);
        assert(texts(excluded@) =~= before.push(x@));
        assert(string_views(excluded_files@).take(i + 1) =~= string_views(excluded_files@).take(
            i as int,
        ).push(x@));
        i += 1;
        assert(texts(excluded@) =~= string_views(excluded_files@).take(i as int));
    }
    assert(string_views(excluded_files@).take(excluded_files@.len() as int) =~= string_views(
        excluded_files@,
    ));
    let pad = indent_pad(indent);
    string_of(&list_files(files, &excluded, *list_char, &pad, mdheader, headers))
}

// ---------------------------------------------------------------------------
// Chapter lists
// ---------------------------------------------------------------------------
/// Copies of the first `n` pieces.
fn take_parts(parts: &Vec<Vec<char>>, n: usize) -> (r: Vec<Vec<char>>)
    requires
        n <= parts@.len(),
    ensures
        texts(r@) == texts(parts@).take(n as int),
{
    let mut r: Vec<Vec<char>> = Vec::new();
    let mut i: usize = 0;
    while i < n
        invariant
            i <= n <= parts@.len(),
            texts(r@) == texts(parts@).take(i as int),
        decreases n - i,
    {
        let ghost before = texts(r@);
        let x = slice_of(&parts[i], 0, parts[i].len());
        assert(x@ =~= parts@[i as int]@);
        r.push(x);
        assert(texts(r@) =~= before.push(x@));
        i += 1;
        assert(texts(r@) =~= texts(parts@).take(i as int));
    }
    r
}

proof fn lemma_first_content_in_prefix(cs: Seq<ChapterModel>, n: int, p: Seq<char>)
    requires
        0 <= n <= cs.len(),
        first_content_in(cs.take(n)) == Some(p),
    ensures
        first_content_in(cs) == Some(p),
    decreases cs.len() - n,
{
    if n == cs.len() {
        assert(cs.take(n) =~= cs);
    } else {
        assert(cs.take(n + 1).drop_last() =~= cs.take(n));
        assert(first_content_in(cs.take(n + 1)) == Some(p));
        lemma_first_content_in_prefix(cs, n + 1, p);
    }
}

proof fn lemma_preferred_witness(name: Seq<char>, names: Seq<Seq<char>>, i: int)
    requires
        0 <= i < names.len(),
        same_ignoring_ascii_case(names[i], name),
    ensures
        is_preferred(name, Some(names)),
{
    let o: Option<Seq<Seq<char>>> = Some(names);
    assert(o is Some);
    assert(o->0 == names);
    assert(exists|j: int| 0 <= j < names.len() && same_ignoring_ascii_case(#[trigger] names[j], name));
    assert(is_preferred(name, o));
}

/// Whether one of the preferred names equals the chapter's name, ignoring
/// ASCII case.
fn is_preferred_chapter(chapter: &Chapter, preferred_chapter: &Option<Vec<String>>) -> (r: bool)
    ensures
        r == is_preferred(chapter@.name, preferred_view(*preferred_chapter)),
{
    proof {
        lemma_chapter_view(*chapter);
    }
    match preferred_chapter {
        Some(names) => {
            let name = chars_of(chapter.name.as_str());
            let mut i: usize = 0;
            while i < names.len()
                invariant
                    i <= names@.len(),
                    name@ == chapter@.name,
                    preferred_view(*preferred_chapter) == Some(string_views(names@)),
                    forall|j: int|
                        0 <= j < i ==> !same_ignoring_ascii_case(
                            #[trigger] string_views(names@)[j],
                            name@,
                        ),
                decreases names.len() - i,
            {
                let candidate = chars_of(names[i].as_str());
                if same_ignoring_case(&candidate, &name) {
                    let ghost nv = string_views(names@);
                    assert(same_ignoring_ascii_case(nv[i as int], name@));
                    assert(0 <= i < nv.len());
                    proof {
                        lemma_preferred_witness(chapter@.name, nv, i as int);
                    }
                    return true;
                }
                i += 1;
            }
            false
        },
        None => false,
    }
}

impl Chapter {
    /// In the mdBook format, the first file whose stem is the child's name
    /// (ignoring ASCII case).
    fn link_file_for_child(&self, child: &Chapter, format: &Format) -> (r: Option<Vec<char>>)
        ensures
            opt_text(r) == child_link(self@.files, child@.name, *format is Md),
    {
        proof {
            lemma_chapter_view(*self);
            lemma_chapter_view(*child);
        }
        match format {
            Format::Md(_) => {},
            Format::Git(_) => {
                return None;
            },
        }
        let name = chars_of(child.name.as_str());
        let ghost files = self@.files;
        let ghost p = stem_is(name@);
        let mut i: usize = 0;
        while i < self.files.len()
            invariant
                i <= self.files@.len(),
                files == string_views(self.files@),
                files == self@.files,
                name@ == child@.name,
                *format is Md,
                p == stem_is(name@),
                forall|j: int| 0 <= j < i ==> !p(#[trigger] files[j]),
            decreases self.files.len() - i,
        {
            let f = chars_of(self.files[i].as_str());
            assert(f@ == files[i as int]);
            let matched = match file_stem(&f) {
                Some(stem) => same_ignoring_case(&stem, &name),
                None => false,
            };
            if matched {
                proof {
                    lemma_first_index_is(files, p, i as int);
                }
                return Some(f);
            }
            i += 1;
        }
        proof {
            lemma_first_index_none(files, p);
        }
        None
    }

    /// The files that serve as pages of the sub-chapters.
    fn linked_child_files(&self, format: &Format) -> (r: Vec<Vec<char>>)
        ensures
            texts(r@) == linked_files(self@.files, self@.chapters, *format is Md),
    {
        proof {
            lemma_chapter_view(*self);
        }
        let ghost cs = self@.chapters;
        let mut out: Vec<Vec<char>> = Vec::new();
        let mut i: usize = 0;
        while i < self.chapter.len()
            invariant
                i <= self.chapter@.len(),
                cs == chapter_views(self.chapter@),
                cs == self@.chapters,
                texts(out@) == linked_files(self@.files, cs.take(i as int), *format is Md),
            decreases self.chapter.len() - i,
        {
            proof {
                assert(cs.take(i + 1).drop_last() =~= cs.take(i as int));
                assert(cs.take(i + 1).last() == self.chapter@[i as int]@);
            }
            let ghost before = texts(out@);
            match self.link_file_for_child(&self.chapter[i], format) {
                Some(link) => {
                    out.push(link);
                    assert(texts(out@) =~= before.push(link@));
                },
                None => {},
            }
            i += 1;
        }
        assert(cs.take(cs.len() as int) =~= cs);
        out
    }

    /// The first file of the chapter or, where it has none, of its first
    /// sub-chapter that has one.
    fn first_content_path(&self) -> (r: Option<Vec<char>>)
        ensures
            opt_text(r) == first_content(self@),
        decreases self,
    {
        proof {
            lemma_chapter_view(*self);
        }
        if self.files.len() > 0 {
            return Some(chars_of(self.files[0].as_str()));
        }
        let ghost cs = self@.chapters;
        let mut i: usize = 0;
        while i < self.chapter.len()
            invariant
                i <= self.chapter@.len(),
                cs == chapter_views(self.chapter@),
                cs == self@.chapters,
                self@.files.len() == 0,
                first_content_in(cs.take(i as int)) is None,
            decreases self.chapter.len() - i,
        {
            proof {
                assert(decreases_to!(self => self.chapter@[i as int]));
                assert(cs.take(i + 1).drop_last() =~= cs.take(i as int));
                assert(cs.take(i + 1)[i as int] == self.chapter@[i as int]@);
            }
            match self.chapter[i].first_content_path() {
                Some(p) => {
                    proof {
                        lemma_first_content_in_prefix(cs, i + 1, p@);
                    }
                    return Some(p);
                },
                None => {},
            }
            i += 1;
        }
        assert(cs.take(cs.len() as int) =~= cs);
        None
    }

    /// The page of a chapter without one: its first content path cut after
    /// the component equal to the chapter's name, plus `.md`.
    fn infer_chapter_link(&self) -> (r: Option<Vec<char>>)
        ensures
            opt_text(r) == inferred_link(self@),
    {
        proof {
            lemma_chapter_view(*self);
        }
        let first_path = match self.first_content_path() {
            Some(p) => p,
            None => return None,
        };
        let components = split_chars(&first_path, '/');
        let name = chars_of(self.name.as_str());
        let ghost comps = texts(components@);
        let ghost p = |x: Seq<char>| x == self@.name;
        let mut i: usize = 0;
        while i < components.len()
            invariant
                i <= components@.len(),
                comps == texts(components@),
                comps == split_on(first_path@, '/'),
                first_content(self@) == Some(first_path@),
                name@ == self@.name,
                p == (|x: Seq<char>| x == self@.name),
                forall|j: int| 0 <= j < i ==> !p(#[trigger] comps[j]),
            decreases components.len() - i,
        {
            if crate::book::same_chars(&components[i], &name) {
                proof {
                    lemma_first_index_is(comps, p, i as int);
                }
                let prefix = take_parts(&components, i + 1);
                let mut link = join_chars(&prefix, '/');
                let ghost joined = link@;
                link.push('.');
                link.push('m');
                link.push('d');
                assert(link@ =~= joined + md_extension());
                return Some(link);
            }
            i += 1;
        }
        proof {
            lemma_first_index_none(comps, p);
        }
        None
    }

    /// The first readme file of the chapter.
    fn first_readme(&self) -> (r: Option<Vec<char>>)
        ensures
            opt_text(r) == first_readme(self@.files),
    {
        proof {
            lemma_chapter_view(*self);
        }
        let ghost files = self@.files;
        let ghost p = |f: Seq<char>| is_readme(f);
        let mut i: usize = 0;
        while i < self.files.len()
            invariant
                i <= self.files@.len(),
                files == string_views(self.files@),
                files == self@.files,
                p == (|f: Seq<char>| is_readme(f)),
                forall|j: int| 0 <= j < i ==> !p(#[trigger] files[j]),
            decreases self.files.len() - i,
        {
            let f = chars_of(self.files[i].as_str());
            if is_readme_path(&f) {
                proof {
                    lemma_first_index_is(files, p, i as int);
                }
                return Some(f);
            }
            i += 1;
        }
        proof {
            lemma_first_index_none(files, p);
        }
        None
    }

    /// The nested list of this chapter, its lines starting with `pad`.
    fn create_tree_for_summary(
        &self,
        format: &Format,
        pad: &Vec<char>,
        mdheader: bool,
        headers: &[FileHeader],
        link_override: Option<Vec<char>>,
    ) -> (r: Vec<char>)
        ensures
            r@ == tree(self@, *format, pad@, mdheader, header_views(headers@), opt_text(link_override)),
        decreases self,
    {
        proof {
            lemma_chapter_view(*self);
        }
        let ghost hv = header_views(headers@);
        let ghost c = self@;
        let list_char = match format {
            Format::Md(c) => *c,
            Format::Git(c) => *c,
        };
        let md = match format {
            Format::Md(_) => true,
            Format::Git(_) => false,
        };
        let mut summary: Vec<char> = Vec::new();
        push_all(&mut summary, pad);
        let name = chars_of(self.name.as_str());
        let title = titlecase(&name);
        let link = match link_override {
            Some(l) => Some(l),
            None => self.first_readme(),
        };
        match link {
            Some(l) => {
                push_link_line(&mut summary, list_char, &title, &l);
            },
            None => {
                if md {
                    let page = match self.infer_chapter_link() {
                        Some(l) => l,
                        None => {
                            let mut l: Vec<char> = Vec::new();
                            push_all(&mut l, &title);
                            l.push('.');
                            l.push('m');
                            l.push('d');
                            assert(l@ =~= title@ + md_extension());
                            l
                        },
                    };
                    push_link_line(&mut summary, list_char, &title, &page);
                } else {
                    let ghost before = summary@;
                    summary.push(list_char);
                    summary.push(' ');
                    push_all(&mut summary, &title);
                    summary.push('\n');
                    assert(summary@ =~= before + (seq![list_char, ' '] + title@ + seq!['\n']));
                }
            },
        }
        assert(summary@ =~= pad@ + chapter_line(c, md, list_char, opt_text(link_override)));
        let linked = self.linked_child_files(format);
        let deeper = deeper_pad(pad);
        let listed = list_files(self.files.as_slice(), &linked, list_char, &deeper, mdheader, headers);
        push_all(&mut summary, &listed);
        let ghost head = summary@;
        let ghost cs = c.chapters;
        let mut i: usize = 0;
        while i < self.chapter.len()
            invariant
                i <= self.chapter@.len(),
                c == self@,
                cs == c.chapters,
                cs == chapter_views(self.chapter@),
                hv == header_views(headers@),
                deeper@ == pad@ + spaces(4),
                summary@ == head + subtrees(c.files, cs.take(i as int), *format, deeper@, mdheader, hv),
            decreases self.chapter.len() - i,
        {
            let child = &self.chapter[i];
            let link = self.link_file_for_child(child, format);
            proof {
                assert(decreases_to!(self => self.chapter@[i as int]));
                assert(cs.take(i + 1).drop_last() =~= cs.take(i as int));
                assert(cs.take(i + 1)[i as int] == child@);
            }
            let sub = child.create_tree_for_summary(format, &deeper, mdheader, headers, link);
            push_all(&mut summary, &sub);
            i += 1;
        }
        assert(cs.take(cs.len() as int) =~= cs);
        summary
    }
}

impl Chapter {
    /// The first sub-chapter whose name equals `lower` after lower-casing.
    fn find_preferred(&self, name: &Vec<char>) -> (r: Option<usize>)
        ensures
            match r {
                Some(k) => preferred_index(self@.chapters, name@) == Some(k as int),
                None => preferred_index(self@.chapters, name@) is None,
            },
    {
        proof {
            lemma_chapter_view(*self);
        }
        let lower = to_lowercase(name);
        let ghost cs = self@.chapters;
        let ghost p = |ch: ChapterModel| lowercase(ch.name) == lowercase(name@);
        let mut k: usize = 0;
        while k < self.chapter.len()
            invariant
                k <= self.chapter@.len(),
                cs == chapter_views(self.chapter@),
                cs == self@.chapters,
                lower@ == lowercase(name@),
                p == (|ch: ChapterModel| lowercase(ch.name) == lowercase(name@)),
                forall|m: int| 0 <= m < k ==> !p(#[trigger] cs[m]),
            decreases self.chapter.len() - k,
        {
            proof {
                lemma_chapter_view(self.chapter@[k as int]);
            }
            let child_lower = to_lowercase(&chars_of(self.chapter[k].name.as_str()));
            if crate::book::same_chars(&child_lower, &lower) {
                proof {
                    lemma_first_index_is(cs, p, k as int);
                }
                return Some(k);
            }
            k += 1;
        }
        proof {
            lemma_first_index_none(cs, p);
        }
        None
    }

    /// The summary of the book: `# name`, a blank line, the top-level files
    /// (readme files and the pages of sub-chapters left out), the preferred
    /// chapters in the order of `prefered_chapter`, then every chapter that
    /// is not preferred, in name order. With `mdheader`, a file's title is
    /// its first header where the book records one.
    pub fn get_summary_file(
        &self,
        format: &Format,
        prefered_chapter: &Option<Vec<String>>,
        mdheader: bool,
    ) -> (r: String)
        ensures
            r@ == summary(
                self@,
                *format,
                preferred_view(*prefered_chapter),
                mdheader,
                header_views(self.headers@),
            ),
    {
        proof {
            lemma_chapter_view(*self);
        }
        let ghost c = self@;
        let ghost hv = header_views(self.headers@);
        let ghost cs = c.chapters;
        let list_char = match format {
            Format::Md(c) => *c,
            Format::Git(c) => *c,
        };
        let mut summary: Vec<char> = Vec::new();
        summary.push('#');
        summary.push(' ');
        let name = chars_of(self.name.as_str());
        push_all(&mut summary, &name);
        summary.push('\n');
        summary.push('\n');
        let linked = self.linked_child_files(format);
        let no_pad: Vec<char> = Vec::new();
        let listed = list_files(
            self.files.as_slice(),
            &linked,
            list_char,
            &no_pad,
            mdheader,
            self.headers.as_slice(),
        );
        push_all(&mut summary, &listed);
        assert(no_pad@ =~= Seq::<char>::empty());
        let ghost head = summary@;
        assert(head =~= seq!['#', ' '] + c.name + seq!['\n', '\n'] + listed_files(
            c.files,
            linked_files(c.files, c.chapters, *format is Md),
            list_char_of(*format),
            Seq::<char>::empty(),
            mdheader,
            hv,
        ));
        match prefered_chapter {
            Some(names) => {
                let ghost nv = string_views(names@);
                let mut j: usize = 0;
                while j < names.len()
                    invariant
                        j <= names@.len(),
                        nv == string_views(names@),
                        c == self@,
                        hv == header_views(self.headers@),
                        no_pad@ == Seq::<char>::empty(),
                        summary@ == head + preferred_trees(c, nv.take(j as int), *format, mdheader, hv),
                    decreases names.len() - j,
                {
                    let wanted = chars_of(names[j].as_str());
                    proof {
                        assert(nv.take(j + 1).drop_last() =~= nv.take(j as int));
                        assert(nv.take(j + 1).last() == wanted@);
                    }
                    match self.find_preferred(&wanted) {
                        Some(k) => {
                            proof {
                                crate::seqs::lemma_first_index(
                                    c.chapters,
                                    |ch: ChapterModel| lowercase(ch.name) == lowercase(wanted@),
                                );
                                lemma_chapter_view(*self);
                            }
                            let child = &self.chapter[k];
                            let link = self.link_file_for_child(child, format);
                            let sub = child.create_tree_for_summary(
                                format,
                                &no_pad,
                                mdheader,
                                self.headers.as_slice(),
                                link,
                            );
                            push_all(&mut summary, &sub);
                        },
                        None => {},
                    }
                    j += 1;
                }
                assert(nv.take(names@.len() as int) =~= nv);
            },
            None => {},
        }
        let ghost mid = summary@;
        let mut i: usize = 0;
        while i < self.chapter.len()
            invariant
                i <= self.chapter@.len(),
                c == self@,
                cs == c.chapters,
                cs == chapter_views(self.chapter@),
                hv == header_views(self.headers@),
                no_pad@ == Seq::<char>::empty(),
                summary@ == mid + other_trees(
                    c.files,
                    cs.take(i as int),
                    *format,
                    preferred_view(*prefered_chapter),
                    mdheader,
                    hv,
                ),
            decreases self.chapter.len() - i,
        {
            let child = &self.chapter[i];
            proof {
                assert(cs.take(i + 1).drop_last() =~= cs.take(i as int));
                assert(cs.take(i + 1).last() == child@);
            }
            if !is_preferred_chapter(child, prefered_chapter) {
                let link = self.link_file_for_child(child, format);
                let sub = child.create_tree_for_summary(
                    format,
                    &no_pad,
                    mdheader,
                    self.headers.as_slice(),
                    link,
                );
                push_all(&mut summary, &sub);
            }
            i += 1;
        }
        assert(cs.take(cs.len() as int) =~= cs);
        string_of(&summary)
    }
}

// ---------------------------------------------------------------------------
// Laws of the summary
// ---------------------------------------------------------------------------
/// Every summary opens with `# {name}` and a blank line.
pub proof fn law_summary_starts_with_title(
    c: ChapterModel,
    format: Format,
    preferred: Option<Seq<Seq<char>>>,
    mdheader: bool,
    headers: Seq<(Seq<char>, Seq<char>)>,
)
    ensures
        crate::text::has_prefix(
            summary(c, format, preferred, mdheader, headers),
            seq!['#', ' '] + c.name + seq!['\n', '\n'],
        ),
{
    let head = seq!['#', ' '] + c.name + seq!['\n', '\n'];
    let all = summary(c, format, preferred, mdheader, headers);
    assert(all.take(head.len() as int) =~= head);
}

/// The summary of a book without files or chapters is its title line and a
/// blank line, whatever the format, preferred chapters and headers.
pub proof fn law_empty_book_summary(
    name: Seq<char>,
    mdheader: bool,
    format: Format,
    preferred: Option<Seq<Seq<char>>>,
    headers: Seq<(Seq<char>, Seq<char>)>,
)
    ensures
        summary(
            ChapterModel {
                name: name,
                files: Seq::<Seq<char>>::empty(),
                chapters: Seq::<ChapterModel>::empty(),
                mdheader: mdheader,
            },
            format,
            preferred,
            mdheader,
            headers,
        ) == seq!['#', ' '] + name + seq!['\n', '\n'],
{
    let c = ChapterModel {
        name: name,
        files: Seq::<Seq<char>>::empty(),
        chapters: Seq::<ChapterModel>::empty(),
        mdheader: mdheader,
    };
    match preferred {
        Some(names) => {
            lemma_no_preferred_trees(c, names, format, mdheader, headers);
        },
        None => {},
    }
    assert(summary(c, format, preferred, mdheader, headers) =~= seq!['#', ' '] + name + seq![
        '\n',
        '\n',
    ]);
}

/// With headers asked for, a file inside a chapter, at any depth, is listed
/// under its recorded header: the list of a chapter that holds one file, not
/// a readme, and no sub-chapters is the chapter's own line, then one line one
/// level deeper that links the file under its header.
pub proof fn law_chapter_file_listed_under_header(
    c: ChapterModel,
    format: Format,
    pad: Seq<char>,
    headers: Seq<(Seq<char>, Seq<char>)>,
    link_override: Option<Seq<char>>,
    f: Seq<char>,
    h: Seq<char>,
)
    requires
        c.files == seq![f],
        c.chapters.len() == 0,
        !is_readme(f),
        header_of(headers, f) == Some(h),
    ensures
        tree(c, format, pad, true, headers, link_override) == pad + chapter_line(
            c,
            format is Md,
            list_char_of(format),
            link_override,
        ) + pad + spaces(4) + link_line(list_char_of(format), h, f),
{
    let md = format is Md;
    let lc = list_char_of(format);
    let deeper = pad + spaces(4);
    let excluded = linked_files(c.files, c.chapters, md);
    assert(excluded =~= Seq::<Seq<char>>::empty());
    assert(!excluded.contains(f));
    assert(c.files.drop_last() =~= Seq::<Seq<char>>::empty());
    assert(c.files.last() == f);
    assert(listed_files(c.files.drop_last(), excluded, lc, deeper, true, headers) == Seq::<char>::empty());
    assert(file_title(f, true, headers) == h);
    assert(listed_files(c.files, excluded, lc, deeper, true, headers) =~= Seq::<char>::empty() + deeper
        + link_line(lc, h, f));
    assert(Seq::<char>::empty() + deeper + link_line(lc, h, f) =~= deeper + link_line(lc, h, f));
    assert(subtrees(c.files, c.chapters, format, deeper, true, headers) =~= Seq::<char>::empty());
    assert(tree(c, format, pad, true, headers, link_override) =~= pad + chapter_line(
        c,
        md,
        lc,
        link_override,
    ) + pad + spaces(4) + link_line(lc, h, f));
}

/// With headers asked for, the summary of a book whose only content is one
/// chapter holding one file lists that file, one level down, under its
/// recorded header.
pub proof fn law_summary_chapter_file_under_header(
    root: ChapterModel,
    format: Format,
    headers: Seq<(Seq<char>, Seq<char>)>,
    f: Seq<char>,
    h: Seq<char>,
)
    requires
        root.files.len() == 0,
        root.chapters.len() == 1,
        root.chapters[0].files == seq![f],
        root.chapters[0].chapters.len() == 0,
        !is_readme(f),
        header_of(headers, f) == Some(h),
    ensures
        summary(root, format, None, true, headers) == seq!['#', ' '] + root.name + seq!['\n', '\n']
            + chapter_line(root.chapters[0], format is Md, list_char_of(format), None) + spaces(4)
            + link_line(list_char_of(format), h, f),
{
    let c = root.chapters[0];
    let md = format is Md;
    lemma_first_index_none(root.files, stem_is(c.name));
    assert(child_link(root.files, c.name, md) is None);
    law_chapter_file_listed_under_header(c, format, Seq::<char>::empty(), headers, None, f, h);
    assert(root.chapters.drop_last() =~= Seq::<ChapterModel>::empty());
    assert(root.chapters.last() == c);
    let t = tree(c, format, Seq::<char>::empty(), true, headers, None);
    assert(!is_preferred(c.name, None));
    assert(other_trees(root.files, root.chapters.drop_last(), format, None, true, headers)
        == Seq::<char>::empty());
    assert(other_trees(root.files, root.chapters, format, None, true, headers) =~= Seq::<char>::empty()
        + t);
    assert(listed_files(
        root.files,
        linked_files(root.files, root.chapters, md),
        list_char_of(format),
        Seq::<char>::empty(),
        true,
        headers,
    ) =~= Seq::<char>::empty());
    assert(summary(root, format, None, true, headers) =~= seq!['#', ' '] + root.name + seq![
        '\n',
        '\n',
    ] + t);
    assert(Seq::<char>::empty() + chapter_line(c, md, list_char_of(format), None) =~= chapter_line(
        c,
        md,
        list_char_of(format),
        None,
    ));
    assert(seq!['#', ' '] + root.name + seq!['\n', '\n'] + t =~= seq!['#', ' '] + root.name + seq![
        '\n',
        '\n',
    ] + chapter_line(c, md, list_char_of(format), None) + spaces(4) + link_line(
        list_char_of(format),
        h,
        f,
    ));
}

proof fn lemma_no_preferred_trees(
    c: ChapterModel,
    names: Seq<Seq<char>>,
    format: Format,
    mdheader: bool,
    headers: Seq<(Seq<char>, Seq<char>)>,
)
    requires
        c.chapters.len() == 0,
    ensures
        preferred_trees(c, names, format, mdheader, headers) == Seq::<char>::empty(),
    decreases names.len(),
{
    if names.len() > 0 {
        lemma_no_preferred_trees(c, names.drop_last(), format, mdheader, headers);
        lemma_first_index_none(
            c.chapters,
            |ch: ChapterModel| lowercase(ch.name) == lowercase(names.last()),
        );
    }
}

} // verus!
