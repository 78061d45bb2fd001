//! The chapter tree of a book and the summary text written from it.
use std::cmp::Ordering;
use vstd::prelude::*;
use vstd::multiset::Multiset;
use crate::sort::{paths_after, sort_paths, sort_seq, text_order, lemma_insert_sorted_at};
use crate::text::{chars_of, split_chars, split_on, string_views, texts, push_all};

verus! {

// ---------------------------------------------------------------------------
// Output format
// ---------------------------------------------------------------------------
/// The flavour of summary to write, with the character that starts a list
/// item: mdBook (`md`, `-`) or GitBook (`git`, `*`).
#[derive(Clone, Debug, PartialEq, Eq, Structural)]
pub enum Format {
    Md(char),
    Git(char),
}

/// The format a name selects: `md` or `git`.
pub open spec fn format_named(s: Seq<char>) -> Option<Format> {
    if s == seq!['m', 'd'] {
        Some(Format::Md('-'))
    } else if s == seq!['g', 'i', 't'] {
        Some(Format::Git('*'))
    } else {
        None
    }
}

/// The message for a format name that is not known.
pub open spec fn unsupported_format_message(s: Seq<char>) -> Seq<char> {
    seq!['不', '支', '持', '的', '格', '式', '：'] + s
}

impl Format {
    /// The format named `md` or `git`; any other name is refused with a
    /// message that quotes it.
    pub fn parse(s: &str) -> (r: Result<Format, String>)
        ensures
            match r {
                Ok(f) => format_named(s@) == Some(f),
                Err(e) => format_named(s@) is None && e@ == unsupported_format_message(s@),
            },
    {
        let name = chars_of(s);
        let md = vec!['m', 'd'];
        let git = vec!['g', 'i', 't'];
        assert(md@ =~= seq!['m', 'd']);
        assert(git@ =~= seq!['g', 'i', 't']);
        if same_chars(&name, &md) {
            Ok(Format::Md('-'))
        } else if same_chars(&name, &git) {
            Ok(Format::Git('*'))
        } else {
            let mut message = vec!['不', '支', '持', '的', '格', '式', '：'];
            push_all(&mut message, &name);
            assert(message@ =~= unsupported_format_message(s@));
            Err(crate::text::string_of(&message))
        }
    }
}

impl std::str::FromStr for Format {
    type Err = String;

    fn from_str(s: &str) -> (r: Result<Self, Self::Err>)
        ensures
            match r {
                Ok(f) => format_named(s@) == Some(f),
                Err(e) => format_named(s@) is None && e@ == unsupported_format_message(s@),
            },
    {
        Format::parse(s)
    }
}

/// The list character of a format.
pub open spec fn list_char_of(format: Format) -> char {
    match format {
        Format::Md(c) => c,
        Format::Git(c) => c,
    }
}

// ---------------------------------------------------------------------------
// The chapter tree
// ---------------------------------------------------------------------------
/// The first Markdown header recorded for a note file.
#[derive(Clone, Debug, PartialEq)]
pub struct FileHeader {
    pub path: String,
    pub title: String,
}

/// A chapter: its name, the note files directly in it, its sub-chapters, and
/// whether titles come from the files' first headers. The root chapter of a
/// book also holds the first header of each note file whose header was read.
#[derive(Debug, PartialEq)]
pub struct Chapter {
    pub name: String,
    pub files: Vec<String>,
    pub chapter: Vec<Chapter>,
    pub mdheader: bool,
    pub headers: Vec<FileHeader>,
}

/// The mathematical form of a chapter.
pub struct ChapterModel {
    pub name: Seq<char>,
    pub files: Seq<Seq<char>>,
    pub chapters: Seq<ChapterModel>,
    pub mdheader: bool,
}

impl View for Chapter {
    type V = ChapterModel;

    open spec fn view(&self) -> ChapterModel
        decreases self,
    {
        ChapterModel {
            name: self.name@,
            files: string_views(self.files@),
            chapters: Seq::new(
                self.chapter@.len(),
                |i: int|
                    {
                        if 0 <= i < self.chapter@.len() {
                            proof {
                                assert(decreases_to!(self => self.chapter@[i]));
                            }
                            self.chapter@[i].view()
                        } else {
                            empty_chapter(Seq::<char>::empty())
                        }
                    },
            ),
            mdheader: self.mdheader,
        }
    }
}

/// The models of a sequence of chapters.
pub open spec fn chapter_views(v: Seq<Chapter>) -> Seq<ChapterModel> {
    Seq::new(v.len(), |i: int| v[i]@)
}

pub proof fn lemma_chapter_view(c: Chapter)
    ensures
        c@.chapters == chapter_views(c.chapter@),
        c@.name == c.name@,
        c@.files == string_views(c.files@),
        c@.mdheader == c.mdheader,
{
    assert(c@.chapters =~= chapter_views(c.chapter@));
}

/// A chapter with no files and no sub-chapters.
pub open spec fn empty_chapter(name: Seq<char>) -> ChapterModel {
    ChapterModel {
        name: name,
        files: Seq::<Seq<char>>::empty(),
        chapters: Seq::<ChapterModel>::empty(),
        mdheader: false,
    }
}

/// The index of the first sub-chapter with the given name.
pub open spec fn child_index(chapters: Seq<ChapterModel>, name: Seq<char>) -> Option<int>
    decreases chapters.len(),
{
    if chapters.len() == 0 {
        None
    } else {
        match child_index(chapters.drop_last(), name) {
            Some(k) => Some(k),
            None => if chapters.last().name == name {
                Some(chapters.len() - 1)
            } else {
                None
            },
        }
    }
}

/// The path of a component under `root` (`root/part`, or `part` at the top).
pub open spec fn joined_path(root: Seq<char>, part: Seq<char>) -> Seq<char> {
    if root.len() == 0 {
        part
    } else {
        root.push('/') + part
    }
}

/// Files the path components `comps` under the chapter: the last component
/// is a file, kept as its whole path; each one before it is a sub-chapter,
/// taken from the existing ones by name or added at the end.
pub open spec fn add_path(c: ChapterModel, comps: Seq<Seq<char>>, root: Seq<char>) -> ChapterModel
    decreases comps.len(),
{
    if comps.len() == 0 {
        c
    } else {
        let new_root = joined_path(root, comps[0]);
        if comps.len() > 1 {
            match child_index(c.chapters, comps[0]) {
                Some(k) => ChapterModel {
                    chapters: c.chapters.update(k, add_path(c.chapters[k], comps.skip(1), new_root)),
                    ..c
                },
                None => ChapterModel {
                    chapters: c.chapters.push(
                        add_path(empty_chapter(comps[0]), comps.skip(1), new_root),
                    ),
                    ..c
                },
            }
        } else {
            ChapterModel { files: c.files.push(new_root), ..c }
        }
    }
}

/// Files each entry (a `/`-separated path) in turn.
pub open spec fn add_all(c: ChapterModel, entries: Seq<Seq<char>>) -> ChapterModel
    decreases entries.len(),
{
    if entries.len() == 0 {
        c
    } else {
        add_path(add_all(c, entries.drop_last()), split_on(entries.last(), '/'), Seq::empty())
    }
}

/// Sub-chapter `a` belongs after sub-chapter `b`: its name is greater.
pub open spec fn names_after() -> spec_fn(ChapterModel, ChapterModel) -> bool {
    |a: ChapterModel, b: ChapterModel| text_order(a.name, b.name) == Ordering::Greater
}

/// The chapter with its files in path order and, at every level,
/// sub-chapters in name order.
pub open spec fn sorted_model(c: ChapterModel) -> ChapterModel
    decreases c,
{
    ChapterModel {
        name: c.name,
        files: sort_seq(c.files, paths_after()),
        chapters: sort_seq(sorted_each(c.chapters), names_after()),
        mdheader: c.mdheader,
    }
}

/// Each chapter of the sequence, sorted.
pub open spec fn sorted_each(cs: Seq<ChapterModel>) -> Seq<ChapterModel>
    decreases cs,
{
    if cs.len() == 0 {
        cs
    } else {
        sorted_each(cs.drop_last()).push(sorted_model(cs[cs.len() - 1]))
    }
}

/// The book that `Chapter::new` builds: every entry filed, then sorted.
pub open spec fn book_model(name: Seq<char>, entries: Seq<Seq<char>>, mdheader: bool) -> ChapterModel {
    sorted_model(
        add_all(
            ChapterModel {
                name: name,
                files: Seq::<Seq<char>>::empty(),
                chapters: Seq::<ChapterModel>::empty(),
                mdheader: mdheader,
            },
            entries,
        ),
    )
}

pub(crate) fn same_chars(a: &Vec<char>, b: &Vec<char>) -> (r: bool)
    ensures
        r == (a@ == b@),
{
    if a.len() != b.len() {
        return false;
    }
    let mut i: usize = 0;
    while i < a.len()
        invariant
            a@.len() == b@.len(),
            i <= a@.len(),
            forall|j: int| 0 <= j < i ==> a@[j] == b@[j],
        decreases a.len() - i,
    {
        if a[i] != b[i] {
            return false;
        }
        i += 1;
    }
    assert(a@ =~= b@);
    true
}

impl Chapter {
    /// The book made of the given note paths: each `/`-separated path is
    /// filed under its directory chapters, files are put in path order and
    /// sub-chapters in name order.
    pub fn new(name: String, entries: &[String], mdheader: bool) -> (book: Chapter)
        ensures
            book@ == book_model(name@, string_views(entries@), mdheader),
            book.headers@.len() == 0,
    {
        let ghost all = string_views(entries@);
        let mut chapter = Chapter {
            name,
            files: Vec::new(),
            chapter: Vec::new(),
            mdheader,
            headers: Vec::new(),
        };
        let ghost start = chapter@;
        proof {
            lemma_chapter_view(chapter);
            assert(chapter@.files =~= Seq::<Seq<char>>::empty());
            assert(chapter@.chapters =~= Seq::<ChapterModel>::empty());
        }
        let mut i: usize = 0;
        while i < entries.len()
            invariant
                i <= entries@.len(),
                all == string_views(entries@),
                chapter@ == add_all(start, all.take(i as int)),
                chapter.headers@.len() == 0,
            decreases entries.len() - i,
        {
            let entry = chars_of(entries[i].as_str());
            let parts = split_chars(&entry, '/');
            let root: Vec<char> = Vec::new();
            proof {
                crate::text::lemma_split_nonempty(entry@, '/');
                assert(all.take(i + 1).drop_last() =~= all.take(i as int));
                assert(texts(parts@).skip(0) =~= texts(parts@));
                assert(root@ =~= Seq::<char>::empty());
            }
            chapter.add_entry(&parts, 0, &root);
            i += 1;
        }
        assert(all.take(entries@.len() as int) =~= all);
        chapter.sort_contents();
        chapter
    }

    /// The index of the first sub-chapter named `name`.
    fn find_child(&self, name: &Vec<char>) -> (r: Option<usize>)
        ensures
            match r {
                Some(k) => child_index(self@.chapters, name@) == Some(k as int),
                None => child_index(self@.chapters, name@) is None,
            },
    {
        proof {
            lemma_chapter_view(*self);
        }
        let ghost cs = self@.chapters;
        let mut i: usize = 0;
        while i < self.chapter.len()
            invariant
                i <= self.chapter@.len(),
                cs == chapter_views(self.chapter@),
                cs == self@.chapters,
                child_index(cs.take(i as int), name@) is None,
            decreases self.chapter.len() - i,
        {
            let child_name = chars_of(self.chapter[i].name.as_str());
            proof {
                lemma_chapter_view(self.chapter@[i as int]);
                assert(cs.take(i + 1).drop_last() =~= cs.take(i as int));
            }
            if same_chars(&child_name, name) {
                proof {
                    assert(cs[i as int] == self.chapter@[i as int]@);
                    assert(cs[i as int].name == name@);
                    lemma_child_index_prefix(cs, name@, i as int + 1);
                    assert(child_index(cs, name@) == Some(i as int));
                }
                return Some(i);
            }
            i += 1;
        }
        assert(cs.take(cs.len() as int) =~= cs);
        None
    }

    /// Files the components `entry[start..]` under this chapter, below the
    /// path `root`.
    fn add_entry(&mut self, entry: &Vec<Vec<char>>, start: usize, root: &Vec<char>)
        requires
            start < entry@.len(),
        ensures
            final(self)@ == add_path(old(self)@, texts(entry@).skip(start as int), root@),
            final(self).headers == old(self).headers,
        decreases entry@.len() - start,
    {
        let ghost comps = texts(entry@).skip(start as int);
        let part = &entry[start];
        assert(part@ == comps[0]);
        let new_root = if root.len() == 0 {
            let mut r: Vec<char> = Vec::new();
            push_all(&mut r, part);
            r
        } else {
            let mut r: Vec<char> = Vec::new();
            push_all(&mut r, root);
            r.push('/');
            push_all(&mut r, part);
            r
        };
        assert(new_root@ =~= joined_path(root@, comps[0]));
        proof {
            lemma_chapter_view(*self);
        }
        let ghost old_self = self@;
        if entry.len() - start > 1 {
            assert(texts(entry@).skip(start + 1) =~= comps.skip(1));
            match self.find_child(part) {
                Some(k) => {
                    proof {
                        lemma_child_index_found(old_self.chapters, comps[0]);
                    }
                    let mut child = self.chapter.remove(k);
                    child.add_entry(entry, start + 1, &new_root);
                    self.chapter.insert(k, child);
                    proof {
                        lemma_chapter_view(*self);
                        assert(chapter_views(self.chapter@) =~= old_self.chapters.update(
                            k as int,
                            add_path(old_self.chapters[k as int], comps.skip(1), new_root@),
                        ));
                    }
                },
                None => {
                    let mut child = Chapter {
                        name: crate::text::string_of(part),
                        files: Vec::new(),
                        chapter: Vec::new(),
                        mdheader: false,
                        headers: Vec::new(),
                    };
                    proof {
                        lemma_chapter_view(child);
                        assert(child@.files =~= Seq::<Seq<char>>::empty());
                        assert(child@.chapters =~= Seq::<ChapterModel>::empty());
                        assert(child@ == empty_chapter(comps[0]));
                    }
                    child.add_entry(entry, start + 1, &new_root);
                    self.chapter.push(child);
                    proof {
                        lemma_chapter_view(*self);
                        assert(chapter_views(self.chapter@) =~= old_self.chapters.push(
                            add_path(empty_chapter(comps[0]), comps.skip(1), new_root@),
                        ));
                    }
                },
            }
        } else {
            self.files.push(crate::text::string_of(&new_root));
            proof {
                lemma_chapter_view(*self);
                assert(string_views(self.files@) =~= old_self.files.push(new_root@));
            }
        }
    }

    /// Puts the files in path order and the sub-chapters in name order, at
    /// every level.
    fn sort_contents(&mut self)
        ensures
            final(self)@ == sorted_model(old(self)@),
            final(self).headers == old(self).headers,
        decreases *old(self),
    {
        proof {
            lemma_chapter_view(*self);
        }
        let ghost old_self = self@;
        let ghost old_children = self.chapter@;
        let mut files: Vec<String> = Vec::new();
        std::mem::swap(&mut files, &mut self.files);
        self.files = sort_paths(files);
        let mut children: Vec<Chapter> = Vec::new();
        std::mem::swap(&mut children, &mut self.chapter);
        let ghost children_before = chapter_views(children@);
        assert(children_before == old_self.chapters);
        let mut sorted_children: Vec<Chapter> = Vec::new();
        let mut rest = children;
        let ghost mut k: int = 0;
        while rest.len() > 0
            invariant
                0 <= k <= children_before.len(),
                children_before == chapter_views(old_children),
                old_children == old(self).chapter@,
                rest@ == old_children.skip(k),
                chapter_views(sorted_children@) == sorted_each(children_before.take(k)),
            decreases rest.len(),
        {
            assert(k < children_before.len());
            let mut child = rest.remove(0);
            assert(child == old_children[k]);
            assert(rest@ =~= old_children.skip(k + 1));
            proof {
                assert(decreases_to!(*old(self) => old(self).chapter@[k]));
            }
            child.sort_contents();
            sorted_children.push(child);
            proof {
                assert(children_before.take(k + 1).drop_last() =~= children_before.take(k));
                assert(children_before.take(k + 1)[k] == children_before[k]);
                k = k + 1;
                assert(chapter_views(sorted_children@) =~= sorted_each(children_before.take(k)));
            }
        }
        assert(children_before.take(k) =~= children_before);
        self.chapter = sort_chapters(sorted_children);
        proof {
            lemma_chapter_view(*self);
        }
    }
}

proof fn lemma_child_index_found(cs: Seq<ChapterModel>, name: Seq<char>)
    ensures
        child_index(cs, name) matches Some(k) ==> 0 <= k < cs.len() && cs[k].name == name,
    decreases cs.len(),
{
    if cs.len() > 0 {
        lemma_child_index_found(cs.drop_last(), name);
    }
}

proof fn lemma_child_index_prefix(cs: Seq<ChapterModel>, name: Seq<char>, n: int)
    requires
        0 < n <= cs.len(),
        child_index(cs.take(n - 1), name) is None,
        cs[n - 1].name == name,
    ensures
        child_index(cs, name) == Some(n - 1),
    decreases cs.len() - n,
{
    assert(cs.take(n).drop_last() =~= cs.take(n - 1));
    if n < cs.len() {
        lemma_child_index_prefix_extend(cs, name, n, n - 1);
    } else {
        assert(cs.take(n) =~= cs);
    }
}

proof fn lemma_child_index_prefix_extend(cs: Seq<ChapterModel>, name: Seq<char>, n: int, k: int)
    requires
        0 < n <= cs.len(),
        child_index(cs.take(n), name) == Some(k),
    ensures
        child_index(cs, name) == Some(k),
    decreases cs.len() - n,
{
    if n == cs.len() {
        assert(cs.take(n) =~= cs);
    } else {
        assert(cs.take(n + 1).drop_last() =~= cs.take(n));
        assert(child_index(cs.take(n + 1), name) == Some(k));
        lemma_child_index_prefix_extend(cs, name, n + 1, k);
    }
}

/// Whether sub-chapter `a` belongs after sub-chapter `b`.
fn name_after(a: &Chapter, b: &Chapter) -> (r: bool)
    ensures
        r == (names_after())(a@, b@),
{
    let an = chars_of(a.name.as_str());
    let bn = chars_of(b.name.as_str());
    proof {
        lemma_chapter_view(*a);
        lemma_chapter_view(*b);
    }
    match crate::sort::text_order_of(&an, &bn) {
        Ordering::Greater => true,
        _ => false,
    }
}

/// The chapters in name order: a stable insertion sort.
fn sort_chapters(chapters: Vec<Chapter>) -> (r: Vec<Chapter>)
    ensures
        chapter_views(r@) == sort_seq(chapter_views(chapters@), names_after()),
{
    let ghost all = chapter_views(chapters@);
    let mut rest = chapters;
    let mut out: Vec<Chapter> = Vec::new();
    let ghost mut k: int = 0;
    while rest.len() > 0
        invariant
            0 <= k <= all.len(),
            chapter_views(rest@) == all.skip(k),
            chapter_views(out@) == sort_seq(all.take(k), names_after()),
        decreases rest.len(),
    {
        let ghost before_rest = chapter_views(rest@);
        assert(before_rest.len() == rest@.len());
        assert(before_rest[0] == all[k]);
        let x = rest.remove(0);
        assert(chapter_views(rest@) =~= before_rest.skip(1));
        assert(before_rest.skip(1) =~= all.skip(k + 1));
        let ghost sorted = chapter_views(out@);
        let mut j = out.len();
        while j > 0 && name_after(&out[j - 1], &x)
            invariant
                j <= out@.len(),
                chapter_views(out@) == sorted,
                forall|m: int| j <= m < sorted.len() ==> (names_after())(#[trigger] sorted[m], x@),
            decreases j,
        {
            j -= 1;
        }
        proof {
            lemma_insert_sorted_at(sorted, x@, names_after(), j as int);
            assert(all.take(k + 1).drop_last() =~= all.take(k));
        }
        out.insert(j, x);
        assert(chapter_views(out@) =~= sorted.insert(j as int, x@));
        proof {
            k = k + 1;
        }
    }
    assert(all.take(k) =~= all);
    out
}

// ---------------------------------------------------------------------------
// Laws of the chapter tree
// ---------------------------------------------------------------------------
/// No two sub-chapters share a name.
pub open spec fn names_distinct(cs: Seq<ChapterModel>) -> bool {
    forall|i: int, j: int|
        0 <= i < cs.len() && 0 <= j < cs.len() && i != j ==> #[trigger] cs[i].name != #[trigger] cs[j].name
}

/// The sub-chapters' names increase strictly.
pub open spec fn names_ascending(cs: Seq<ChapterModel>) -> bool {
    forall|i: int, j: int|
        0 <= i < j < cs.len() ==> text_order(#[trigger] cs[i].name, #[trigger] cs[j].name)
            == Ordering::Less
}

/// Sub-chapter names are distinct in this chapter and in every chapter
/// below it.
pub open spec fn distinct_everywhere(c: ChapterModel) -> bool
    decreases c,
{
    names_distinct(c.chapters) && distinct_each(c.chapters)
}

pub open spec fn distinct_each(cs: Seq<ChapterModel>) -> bool
    decreases cs,
{
    if cs.len() == 0 {
        true
    } else {
        distinct_each(cs.drop_last()) && distinct_everywhere(cs[cs.len() - 1])
    }
}

/// Sub-chapter names increase strictly in this chapter and in every chapter
/// below it.
pub open spec fn ascending_everywhere(c: ChapterModel) -> bool
    decreases c,
{
    names_ascending(c.chapters) && ascending_each(c.chapters)
}

pub open spec fn ascending_each(cs: Seq<ChapterModel>) -> bool
    decreases cs,
{
    if cs.len() == 0 {
        true
    } else {
        ascending_each(cs.drop_last()) && ascending_everywhere(cs[cs.len() - 1])
    }
}

proof fn lemma_distinct_each(cs: Seq<ChapterModel>)
    ensures
        distinct_each(cs) == forall|i: int| 0 <= i < cs.len() ==> distinct_everywhere(#[trigger] cs[i]),
    decreases cs.len(),
{
    if cs.len() > 0 {
        let d = cs.drop_last();
        lemma_distinct_each(d);
        assert forall|i: int| 0 <= i < d.len() implies d[i] == cs[i] by {}
        if forall|i: int| 0 <= i < cs.len() ==> distinct_everywhere(#[trigger] cs[i]) {
            assert(distinct_everywhere(cs[cs.len() - 1]));
            assert forall|i: int| 0 <= i < d.len() implies distinct_everywhere(#[trigger] d[i]) by {
                assert(distinct_everywhere(cs[i]));
            }
        }
    }
}

proof fn lemma_ascending_each(cs: Seq<ChapterModel>)
    ensures
        ascending_each(cs) == forall|i: int| 0 <= i < cs.len() ==> ascending_everywhere(#[trigger] cs[i]),
    decreases cs.len(),
{
    if cs.len() > 0 {
        let d = cs.drop_last();
        lemma_ascending_each(d);
        assert forall|i: int| 0 <= i < d.len() implies d[i] == cs[i] by {}
        if forall|i: int| 0 <= i < cs.len() ==> ascending_everywhere(#[trigger] cs[i]) {
            assert(ascending_everywhere(cs[cs.len() - 1]));
            assert forall|i: int| 0 <= i < d.len() implies ascending_everywhere(#[trigger] d[i]) by {
                assert(ascending_everywhere(cs[i]));
            }
        }
    }
}

proof fn lemma_child_index_none(cs: Seq<ChapterModel>, name: Seq<char>)
    requires
        child_index(cs, name) is None,
    ensures
        forall|i: int| 0 <= i < cs.len() ==> #[trigger] cs[i].name != name,
    decreases cs.len(),
{
    if cs.len() > 0 {
        let d = cs.drop_last();
        lemma_child_index_none(d, name);
        assert forall|i: int| 0 <= i < cs.len() implies #[trigger] cs[i].name != name by {
            if i < d.len() {
                assert(d[i] == cs[i]);
            }
        }
    }
}

proof fn lemma_add_path_name(c: ChapterModel, comps: Seq<Seq<char>>, root: Seq<char>)
    ensures
        add_path(c, comps, root).name == c.name,
{
}

proof fn lemma_add_path_distinct(c: ChapterModel, comps: Seq<Seq<char>>, root: Seq<char>)
    requires
        distinct_everywhere(c),
    ensures
        distinct_everywhere(add_path(c, comps, root)),
    decreases comps.len(),
{
    if comps.len() > 1 {
        let new_root = joined_path(root, comps[0]);
        let cs = c.chapters;
        lemma_distinct_each(cs);
        match child_index(cs, comps[0]) {
            Some(k) => {
                lemma_child_index_found(cs, comps[0]);
                lemma_add_path_distinct(cs[k], comps.skip(1), new_root);
                lemma_add_path_name(cs[k], comps.skip(1), new_root);
                let updated = cs.update(k, add_path(cs[k], comps.skip(1), new_root));
                assert forall|i: int| 0 <= i < updated.len() implies #[trigger] updated[i].name
                    == cs[i].name by {}
                lemma_distinct_each(updated);
                assert(names_distinct(updated));
            },
            None => {
                lemma_child_index_none(cs, comps[0]);
                let e = empty_chapter(comps[0]);
                assert(distinct_everywhere(e));
                lemma_add_path_distinct(e, comps.skip(1), new_root);
                lemma_add_path_name(e, comps.skip(1), new_root);
                let pushed = cs.push(add_path(e, comps.skip(1), new_root));
                assert forall|i: int| 0 <= i < cs.len() implies #[trigger] pushed[i] == cs[i] by {}
                lemma_distinct_each(pushed);
                assert(names_distinct(pushed));
            },
        }
    }
}

proof fn lemma_add_all_distinct(c: ChapterModel, entries: Seq<Seq<char>>)
    requires
        distinct_everywhere(c),
    ensures
        distinct_everywhere(add_all(c, entries)),
    decreases entries.len(),
{
    if entries.len() > 0 {
        lemma_add_all_distinct(c, entries.drop_last());
        lemma_add_path_distinct(
            add_all(c, entries.drop_last()),
            split_on(entries.last(), '/'),
            Seq::empty(),
        );
    }
}

proof fn lemma_sorted_each(cs: Seq<ChapterModel>)
    ensures
        sorted_each(cs).len() == cs.len(),
        forall|i: int| 0 <= i < cs.len() ==> #[trigger] sorted_each(cs)[i] == sorted_model(cs[i]),
    decreases cs.len(),
{
    if cs.len() > 0 {
        let d = cs.drop_last();
        lemma_sorted_each(d);
        assert forall|i: int| 0 <= i < cs.len() implies #[trigger] sorted_each(cs)[i] == sorted_model(
            cs[i],
        ) by {
            if i < d.len() {
                assert(d[i] == cs[i]);
            }
        }
    }
}

proof fn lemma_insert_is_insert<T>(s: Seq<T>, x: T, after: spec_fn(T, T) -> bool) -> (j: int)
    ensures
        0 <= j <= s.len(),
        crate::sort::insert_sorted(s, x, after) == s.insert(j, x),
    decreases s.len(),
{
    if s.len() == 0 {
        assert(s.insert(0, x) =~= seq![x]);
        0
    } else if after(s.last(), x) {
        let d = s.drop_last();
        let j = lemma_insert_is_insert(d, x, after);
        assert(d.insert(j, x).push(s.last()) =~= s.insert(j, x));
        j
    } else {
        assert(s.insert(s.len() as int, x) =~= s.push(x));
        s.len() as int
    }
}

proof fn lemma_sort_names_distinct(s: Seq<ChapterModel>)
    requires
        names_distinct(s),
    ensures
        names_distinct(sort_seq(s, names_after())),
        forall|i: int| 0 <= i < s.len() ==> s.contains(#[trigger] sort_seq(s, names_after())[i]),
        sort_seq(s, names_after()).len() == s.len(),
    decreases s.len(),
{
    if s.len() > 0 {
        let d = s.drop_last();
        let x = s.last();
        assert forall|i: int, j: int|
            0 <= i < d.len() && 0 <= j < d.len() && i != j implies #[trigger] d[i].name
            != #[trigger] d[j].name by {
            assert(s[i] == d[i] && s[j] == d[j]);
        }
        lemma_sort_names_distinct(d);
        let r0 = sort_seq(d, names_after());
        let j = lemma_insert_is_insert(r0, x, names_after());
        let r = sort_seq(s, names_after());
        assert(r == r0.insert(j, x));
        assert forall|i: int| 0 <= i < r0.len() implies #[trigger] r0[i].name != x.name by {
            let k = choose|k: int| 0 <= k < d.len() && d[k] == r0[i];
            assert(s[k] == r0[i]);
            assert(s[s.len() - 1] == x);
        }
        assert forall|a: int, b: int|
            0 <= a < r.len() && 0 <= b < r.len() && a != b implies #[trigger] r[a].name
            != #[trigger] r[b].name by {
            if a < j {
                assert(r[a] == r0[a]);
            } else if a > j {
                assert(r[a] == r0[a - 1]);
            }
            if b < j {
                assert(r[b] == r0[b]);
            } else if b > j {
                assert(r[b] == r0[b - 1]);
            }
        }
        assert forall|i: int| 0 <= i < s.len() implies s.contains(#[trigger] r[i]) by {
            if i == j {
                assert(s[s.len() - 1] == x);
            } else {
                let m = if i < j {
                    i
                } else {
                    i - 1
                };
                assert(r[i] == r0[m]);
                let k = choose|k: int| 0 <= k < d.len() && d[k] == r0[m];
                assert(s[k] == r[i]);
            }
        }
    }
}

proof fn lemma_names_order_well(s: Seq<ChapterModel>)
    ensures
        crate::sort::orders_well(names_after(), s),
{
    assert forall|a: ChapterModel, b: ChapterModel|
        s.contains(a) && s.contains(b) && #[trigger] (names_after())(a, b) implies !(names_after())(
        b,
        a,
    ) by {
        crate::sort::law_text_order_reverse(a.name, b.name);
    }
    assert forall|a: ChapterModel, b: ChapterModel, c: ChapterModel|
        s.contains(a) && s.contains(b) && s.contains(c) && !#[trigger] (names_after())(a, b)
            && !#[trigger] (names_after())(b, c) implies !(names_after())(a, c) by {
        crate::sort::law_text_order_transitive(a.name, b.name, c.name);
    }
}

proof fn lemma_sorted_model_ascending(c: ChapterModel)
    requires
        distinct_everywhere(c),
    ensures
        ascending_everywhere(sorted_model(c)),
    decreases c,
{
    let cs = c.chapters;
    lemma_distinct_each(cs);
    lemma_sorted_each(cs);
    let each = sorted_each(cs);
    assert forall|i: int| 0 <= i < each.len() implies ascending_everywhere(#[trigger] each[i]) by {
        assert(decreases_to!(c => cs));
        assert(distinct_everywhere(cs[i]));
        lemma_sorted_model_ascending(cs[i]);
    }
    assert forall|i: int, j: int|
        0 <= i < each.len() && 0 <= j < each.len() && i != j implies #[trigger] each[i].name
        != #[trigger] each[j].name by {
        assert(each[i].name == cs[i].name);
        assert(each[j].name == cs[j].name);
    }
    lemma_sort_names_distinct(each);
    lemma_names_order_well(each);
    crate::sort::law_sort_sorted(each, names_after());
    let r = sort_seq(each, names_after());
    assert forall|i: int, j: int| 0 <= i < j < r.len() implies text_order(
        #[trigger] r[i].name,
        #[trigger] r[j].name,
    ) == Ordering::Less by {
        assert(!(names_after())(r[i], r[j]));
        crate::sort::law_text_order_equal(r[i].name, r[j].name);
    }
    assert forall|i: int| 0 <= i < r.len() implies ascending_everywhere(#[trigger] r[i]) by {
        let k = choose|k: int| 0 <= k < each.len() && each[k] == r[i];
    }
    lemma_ascending_each(r);
}

/// In every chapter of a new book, sub-chapters have distinct names and
/// come in strictly increasing name order.
pub proof fn law_new_book_chapters_ascending(name: Seq<char>, entries: Seq<Seq<char>>, mdheader: bool)
    ensures
        ascending_everywhere(book_model(name, entries, mdheader)),
{
    let start = ChapterModel {
        name: name,
        files: Seq::<Seq<char>>::empty(),
        chapters: Seq::<ChapterModel>::empty(),
        mdheader: mdheader,
    };
    assert(distinct_everywhere(start));
    lemma_add_all_distinct(start, entries);
    lemma_sorted_model_ascending(add_all(start, entries));
}

/// Every chapter below this one takes its titles from file names: its
/// `mdheader` is off.
pub open spec fn plain_below(c: ChapterModel) -> bool
    decreases c,
{
    plain_each(c.chapters)
}

pub open spec fn plain_each(cs: Seq<ChapterModel>) -> bool
    decreases cs,
{
    if cs.len() == 0 {
        true
    } else {
        plain_each(cs.drop_last()) && !cs[cs.len() - 1].mdheader && plain_below(cs[cs.len() - 1])
    }
}

proof fn lemma_plain_each(cs: Seq<ChapterModel>)
    ensures
        plain_each(cs) == forall|i: int|
            0 <= i < cs.len() ==> !(#[trigger] cs[i]).mdheader && plain_below(cs[i]),
    decreases cs.len(),
{
    if cs.len() > 0 {
        let d = cs.drop_last();
        lemma_plain_each(d);
        assert forall|i: int| 0 <= i < d.len() implies d[i] == cs[i] by {}
        if forall|i: int| 0 <= i < cs.len() ==> !(#[trigger] cs[i]).mdheader && plain_below(cs[i]) {
            assert(!cs[cs.len() - 1].mdheader && plain_below(cs[cs.len() - 1]));
            assert forall|i: int| 0 <= i < d.len() implies !(#[trigger] d[i]).mdheader && plain_below(
                d[i],
            ) by {
                assert(!cs[i].mdheader && plain_below(cs[i]));
            }
        }
    }
}

proof fn lemma_add_path_plain(c: ChapterModel, comps: Seq<Seq<char>>, root: Seq<char>)
    requires
        plain_below(c),
    ensures
        plain_below(add_path(c, comps, root)),
        add_path(c, comps, root).mdheader == c.mdheader,
    decreases comps.len(),
{
    if comps.len() > 1 {
        let new_root = joined_path(root, comps[0]);
        let cs = c.chapters;
        lemma_plain_each(cs);
        match child_index(cs, comps[0]) {
            Some(k) => {
                lemma_child_index_found(cs, comps[0]);
                assert(!cs[k].mdheader && plain_below(cs[k]));
                lemma_add_path_plain(cs[k], comps.skip(1), new_root);
                let updated = cs.update(k, add_path(cs[k], comps.skip(1), new_root));
                lemma_plain_each(updated);
            },
            None => {
                let e = empty_chapter(comps[0]);
                assert(plain_below(e));
                lemma_add_path_plain(e, comps.skip(1), new_root);
                let pushed = cs.push(add_path(e, comps.skip(1), new_root));
                assert forall|i: int| 0 <= i < cs.len() implies #[trigger] pushed[i] == cs[i] by {}
                lemma_plain_each(pushed);
            },
        }
    }
}

proof fn lemma_add_all_plain(c: ChapterModel, entries: Seq<Seq<char>>)
    requires
        plain_below(c),
    ensures
        plain_below(add_all(c, entries)),
        add_all(c, entries).mdheader == c.mdheader,
        add_all(c, entries).name == c.name,
    decreases entries.len(),
{
    if entries.len() > 0 {
        let prev = add_all(c, entries.drop_last());
        lemma_add_all_plain(c, entries.drop_last());
        lemma_add_path_plain(prev, split_on(entries.last(), '/'), Seq::empty());
        lemma_add_path_name(prev, split_on(entries.last(), '/'), Seq::empty());
    }
}

proof fn lemma_sorted_model_plain(c: ChapterModel)
    requires
        plain_below(c),
    ensures
        plain_below(sorted_model(c)),
    decreases c,
{
    let cs = c.chapters;
    lemma_plain_each(cs);
    lemma_sorted_each(cs);
    let each = sorted_each(cs);
    assert forall|i: int| 0 <= i < each.len() implies !(#[trigger] each[i]).mdheader && plain_below(
        each[i],
    ) by {
        assert(decreases_to!(c => cs));
        assert(!cs[i].mdheader && plain_below(cs[i]));
        lemma_sorted_model_plain(cs[i]);
    }
    crate::sort::lemma_sort_members(each, names_after());
    let r = sort_seq(each, names_after());
    assert forall|i: int| 0 <= i < r.len() implies !(#[trigger] r[i]).mdheader && plain_below(r[i]) by {
        let k = choose|k: int| 0 <= k < each.len() && each[k] == r[i];
        assert(!each[k].mdheader && plain_below(each[k]));
    }
    lemma_plain_each(r);
}

/// A new book carries the given name and `mdheader` at its top, and every
/// chapter below the top has `mdheader` off.
pub proof fn law_new_book_sub_chapters_plain(name: Seq<char>, entries: Seq<Seq<char>>, mdheader: bool)
    ensures
        book_model(name, entries, mdheader).name == name,
        book_model(name, entries, mdheader).mdheader == mdheader,
        plain_below(book_model(name, entries, mdheader)),
{
    let start = ChapterModel {
        name: name,
        files: Seq::<Seq<char>>::empty(),
        chapters: Seq::<ChapterModel>::empty(),
        mdheader: mdheader,
    };
    assert(plain_below(start));
    lemma_add_all_plain(start, entries);
    lemma_sorted_model_plain(add_all(start, entries));
}

/// Property `p` holds of the chapter, reached through the chapter names
/// `dir`, and of every chapter below it, each with the names leading to it.
pub open spec fn everywhere(
    c: ChapterModel,
    dir: Seq<Seq<char>>,
    p: spec_fn(ChapterModel, Seq<Seq<char>>) -> bool,
) -> bool
    decreases c,
{
    p(c, dir) && everywhere_each(c.chapters, dir, p)
}

pub open spec fn everywhere_each(
    cs: Seq<ChapterModel>,
    dir: Seq<Seq<char>>,
    p: spec_fn(ChapterModel, Seq<Seq<char>>) -> bool,
) -> bool
    decreases cs,
{
    if cs.len() == 0 {
        true
    } else {
        everywhere_each(cs.drop_last(), dir, p) && everywhere(
            cs[cs.len() - 1],
            dir.push(cs[cs.len() - 1].name),
            p,
        )
    }
}

/// Each file of the chapter is one of `s`, and its directory components are
/// the names of the chapters that lead to it.
pub open spec fn placed_in(s: Seq<Seq<char>>) -> spec_fn(ChapterModel, Seq<Seq<char>>) -> bool {
    |c: ChapterModel, dir: Seq<Seq<char>>|
        forall|i: int|
            0 <= i < c.files.len() ==> s.contains(#[trigger] c.files[i]) && split_on(c.files[i], '/').drop_last()
                == dir
}

/// The chapter's files are in path order.
pub open spec fn files_in_order() -> spec_fn(ChapterModel, Seq<Seq<char>>) -> bool {
    |c: ChapterModel, dir: Seq<Seq<char>>| crate::sort::sorted_by(c.files, paths_after())
}

proof fn lemma_everywhere_each(
    cs: Seq<ChapterModel>,
    dir: Seq<Seq<char>>,
    p: spec_fn(ChapterModel, Seq<Seq<char>>) -> bool,
)
    ensures
        everywhere_each(cs, dir, p) == forall|i: int|
            0 <= i < cs.len() ==> everywhere(#[trigger] cs[i], dir.push(cs[i].name), p),
    decreases cs.len(),
{
    if cs.len() > 0 {
        let d = cs.drop_last();
        lemma_everywhere_each(d, dir, p);
        assert forall|i: int| 0 <= i < d.len() implies d[i] == cs[i] by {}
        if forall|i: int| 0 <= i < cs.len() ==> everywhere(#[trigger] cs[i], dir.push(cs[i].name), p) {
            assert(everywhere(cs[cs.len() - 1], dir.push(cs[cs.len() - 1].name), p));
            assert forall|i: int| 0 <= i < d.len() implies everywhere(
                #[trigger] d[i],
                dir.push(d[i].name),
                p,
            ) by {
                assert(everywhere(cs[i], dir.push(cs[i].name), p));
            }
        }
    }
}

proof fn lemma_add_path_placed(
    c: ChapterModel,
    comps: Seq<Seq<char>>,
    root: Seq<char>,
    dir: Seq<Seq<char>>,
    s: Seq<Seq<char>>,
)
    requires
        comps.len() >= 1,
        everywhere(c, dir, placed_in(s)),
        s.contains(filed_path(root, comps)),
        split_on(filed_path(root, comps), '/') == dir + comps,
    ensures
        everywhere(add_path(c, comps, root), dir, placed_in(s)),
    decreases comps.len(),
{
    let new_root = joined_path(root, comps[0]);
    let cs = c.chapters;
    let p = placed_in(s);
    lemma_everywhere_each(cs, dir, p);
    if comps.len() == 1 {
        let r = add_path(c, comps, root);
        assert((dir + comps).drop_last() =~= dir);
        assert(r.files == c.files.push(new_root));
        assert forall|i: int| 0 <= i < r.files.len() implies s.contains(#[trigger] r.files[i])
            && split_on(r.files[i], '/').drop_last() == dir by {
            if i < c.files.len() {
                assert(r.files[i] == c.files[i]);
            }
        }
        assert(p(r, dir));
    } else {
        assert(dir + comps =~= dir.push(comps[0]) + comps.skip(1));
        match child_index(cs, comps[0]) {
            Some(k) => {
                lemma_child_index_found(cs, comps[0]);
                assert(everywhere(cs[k], dir.push(cs[k].name), p));
                lemma_add_path_placed(cs[k], comps.skip(1), new_root, dir.push(comps[0]), s);
                lemma_add_path_name(cs[k], comps.skip(1), new_root);
                let updated = cs.update(k, add_path(cs[k], comps.skip(1), new_root));
                lemma_everywhere_each(updated, dir, p);
            },
            None => {
                let e = empty_chapter(comps[0]);
                lemma_everywhere_each(e.chapters, dir.push(comps[0]), p);
                assert(everywhere(e, dir.push(comps[0]), p));
                lemma_add_path_placed(e, comps.skip(1), new_root, dir.push(comps[0]), s);
                lemma_add_path_name(e, comps.skip(1), new_root);
                let pushed = cs.push(add_path(e, comps.skip(1), new_root));
                assert forall|i: int| 0 <= i < cs.len() implies #[trigger] pushed[i] == cs[i] by {}
                lemma_everywhere_each(pushed, dir, p);
            },
        }
    }
}

proof fn lemma_add_all_placed(c: ChapterModel, entries: Seq<Seq<char>>, s: Seq<Seq<char>>)
    requires
        everywhere(c, Seq::empty(), placed_in(s)),
        forall|i: int| 0 <= i < entries.len() ==> s.contains(#[trigger] entries[i]),
        forall|i: int| 0 <= i < entries.len() ==> (#[trigger] entries[i]).len() == 0 || entries[i][0] != '/',
    ensures
        everywhere(add_all(c, entries), Seq::empty(), placed_in(s)),
    decreases entries.len(),
{
    if entries.len() > 0 {
        let d = entries.drop_last();
        assert forall|i: int| 0 <= i < d.len() implies s.contains(#[trigger] d[i]) && (d[i].len() == 0
            || d[i][0] != '/') by {
            assert(d[i] == entries[i]);
        }
        lemma_add_all_placed(c, d, s);
        let e = entries.last();
        assert(e == entries[entries.len() - 1]);
        let comps = split_on(e, '/');
        crate::text::lemma_split_nonempty(e, '/');
        lemma_filed_entry(e);
        assert(Seq::<Seq<char>>::empty() + comps =~= comps);
        lemma_add_path_placed(add_all(c, d), comps, Seq::empty(), Seq::empty(), s);
    }
}

proof fn lemma_sorted_model_placed(c: ChapterModel, dir: Seq<Seq<char>>, s: Seq<Seq<char>>)
    requires
        everywhere(c, dir, placed_in(s)),
    ensures
        everywhere(sorted_model(c), dir, placed_in(s)),
        crate::sort::keys_order_well(s) ==> everywhere(sorted_model(c), dir, files_in_order()),
    decreases c,
{
    let p = placed_in(s);
    let q = files_in_order();
    let cs = c.chapters;
    let r = sorted_model(c);
    lemma_everywhere_each(cs, dir, p);
    crate::sort::lemma_sort_members(c.files, paths_after());
    assert forall|i: int| 0 <= i < r.files.len() implies s.contains(#[trigger] r.files[i]) && split_on(
        r.files[i],
        '/',
    ).drop_last() == dir by {
        let k = choose|k: int| 0 <= k < c.files.len() && c.files[k] == r.files[i];
    }
    assert(p(r, dir));
    if crate::sort::keys_order_well(s) {
        assert forall|i: int| 0 <= i < c.files.len() implies s.contains(#[trigger] c.files[i]) by {}
        crate::sort::lemma_keys_order_well_sub(s, c.files);
        crate::sort::law_paths_order_well(c.files);
        assert(q(r, dir));
    }
    lemma_sorted_each(cs);
    let each = sorted_each(cs);
    assert forall|i: int| 0 <= i < each.len() implies everywhere(
        #[trigger] each[i],
        dir.push(each[i].name),
        p,
    ) && (crate::sort::keys_order_well(s) ==> everywhere(each[i], dir.push(each[i].name), q)) by {
        assert(decreases_to!(c => cs));
        assert(everywhere(cs[i], dir.push(cs[i].name), p));
        lemma_sorted_model_placed(cs[i], dir.push(cs[i].name), s);
    }
    crate::sort::lemma_sort_members(each, names_after());
    let rc = sort_seq(each, names_after());
    assert(rc == r.chapters);
    assert forall|i: int| 0 <= i < rc.len() implies everywhere(#[trigger] rc[i], dir.push(rc[i].name), p)
        && (crate::sort::keys_order_well(s) ==> everywhere(rc[i], dir.push(rc[i].name), q)) by {
        let k = choose|k: int| 0 <= k < each.len() && each[k] == rc[i];
        assert(everywhere(each[k], dir.push(each[k].name), p));
    }
    lemma_everywhere_each(rc, dir, p);
    lemma_everywhere_each(rc, dir, q);
}

/// In a new book every file sits in the chapter its path leads to: it is
/// one of the entries, and its directory components are the names of the
/// chapters above it, provided no entry starts with `/`. Where
/// `alphanumeric_sort::compare_str` orders the numbered keys of the entries
/// as a total preorder, the files of every chapter are in path order.
pub proof fn law_new_book_files_placed(name: Seq<char>, entries: Seq<Seq<char>>, mdheader: bool)
    requires
        forall|i: int| 0 <= i < entries.len() ==> (#[trigger] entries[i]).len() == 0 || entries[i][0] != '/',
    ensures
        everywhere(book_model(name, entries, mdheader), Seq::empty(), placed_in(entries)),
        crate::sort::keys_order_well(entries) ==> everywhere(
            book_model(name, entries, mdheader),
            Seq::empty(),
            files_in_order(),
        ),
{
    let start = ChapterModel {
        name: name,
        files: Seq::<Seq<char>>::empty(),
        chapters: Seq::<ChapterModel>::empty(),
        mdheader: mdheader,
    };
    lemma_everywhere_each(start.chapters, Seq::empty(), placed_in(entries));
    assert(everywhere(start, Seq::empty(), placed_in(entries)));
    assert forall|i: int| 0 <= i < entries.len() implies entries.contains(#[trigger] entries[i]) by {}
    lemma_add_all_placed(start, entries, entries);
    lemma_sorted_model_placed(add_all(start, entries), Seq::empty(), entries);
}

/// All files of a chapter and of every chapter below it.
pub open spec fn all_files(c: ChapterModel) -> Multiset<Seq<char>>
    decreases c,
{
    c.files.to_multiset().add(all_files_in(c.chapters))
}

/// All files of a sequence of chapters and of every chapter below them.
pub open spec fn all_files_in(cs: Seq<ChapterModel>) -> Multiset<Seq<char>>
    decreases cs,
{
    if cs.len() == 0 {
        Multiset::empty()
    } else {
        all_files_in(cs.drop_last()).add(all_files(cs[cs.len() - 1]))
    }
}

/// The path that `add_path` files: the root joined with every component.
pub open spec fn filed_path(root: Seq<char>, comps: Seq<Seq<char>>) -> Seq<char>
    decreases comps.len(),
{
    if comps.len() <= 1 {
        joined_path(root, comps[0])
    } else {
        filed_path(joined_path(root, comps[0]), comps.skip(1))
    }
}

proof fn lemma_all_files_in_update(cs: Seq<ChapterModel>, k: int, x: ChapterModel)
    requires
        0 <= k < cs.len(),
    ensures
        all_files_in(cs.update(k, x)).add(all_files(cs[k])) == all_files_in(cs).add(all_files(x)),
    decreases cs.len(),
{
    let u = cs.update(k, x);
    let d = cs.drop_last();
    assert(u.drop_last() =~= if k == cs.len() - 1 {
        d
    } else {
        d.update(k, x)
    });
    if k == cs.len() - 1 {
        assert(all_files_in(d).add(all_files(x)).add(all_files(cs[k])) =~= all_files_in(d).add(
            all_files(cs[k]),
        ).add(all_files(x)));
    } else {
        lemma_all_files_in_update(d, k, x);
        assert(d[k] == cs[k]);
        let last = all_files(cs[cs.len() - 1]);
        assert(u[cs.len() - 1] == cs[cs.len() - 1]);
        assert(all_files_in(d.update(k, x)).add(last).add(all_files(cs[k])) =~= all_files_in(
            d.update(k, x),
        ).add(all_files(cs[k])).add(last));
        assert(all_files_in(d).add(all_files(x)).add(last) =~= all_files_in(d).add(last).add(
            all_files(x),
        ));
    }
}

proof fn lemma_all_files_in_push(cs: Seq<ChapterModel>, x: ChapterModel)
    ensures
        all_files_in(cs.push(x)) == all_files_in(cs).add(all_files(x)),
{
    assert(cs.push(x).drop_last() =~= cs);
}

proof fn lemma_add_path_files(c: ChapterModel, comps: Seq<Seq<char>>, root: Seq<char>)
    requires
        comps.len() >= 1,
    ensures
        all_files(add_path(c, comps, root)) == all_files(c).insert(filed_path(root, comps)),
    decreases comps.len(),
{
    broadcast use vstd::seq_lib::group_to_multiset_ensures;

    let new_root = joined_path(root, comps[0]);
    let cs = c.chapters;
    if comps.len() == 1 {
        assert(c.files.push(new_root).to_multiset().add(all_files_in(cs)) =~= c.files.to_multiset().add(
            all_files_in(cs),
        ).insert(new_root));
    } else {
        match child_index(cs, comps[0]) {
            Some(k) => {
                lemma_child_index_found(cs, comps[0]);
                lemma_add_path_files(cs[k], comps.skip(1), new_root);
                let x = add_path(cs[k], comps.skip(1), new_root);
                lemma_all_files_in_update(cs, k, x);
                let p = filed_path(root, comps);
                assert(all_files_in(cs.update(k, x)) =~= all_files_in(cs).insert(p)) by {
                    assert(all_files(x) == all_files(cs[k]).insert(p));
                    assert(all_files_in(cs.update(k, x)).add(all_files(cs[k])) =~= all_files_in(cs).insert(
                        p,
                    ).add(all_files(cs[k])));
                    assert forall|v: Seq<char>| #[trigger] all_files_in(cs.update(k, x)).count(v)
                        == all_files_in(cs).insert(p).count(v) by {
                        assert(all_files_in(cs.update(k, x)).add(all_files(cs[k])).count(v)
                            == all_files_in(cs).insert(p).add(all_files(cs[k])).count(v));
                    }
                }
                assert(c.files.to_multiset().add(all_files_in(cs).insert(p)) =~= c.files.to_multiset().add(
                    all_files_in(cs),
                ).insert(p));
            },
            None => {
                let e = empty_chapter(comps[0]);
                lemma_add_path_files(e, comps.skip(1), new_root);
                let x = add_path(e, comps.skip(1), new_root);
                lemma_all_files_in_push(cs, x);
                assert(all_files_in(e.chapters) =~= Multiset::empty());
                assert(e.files.to_multiset() =~= Multiset::empty());
                let p = filed_path(root, comps);
                assert(all_files(x) =~= Multiset::empty().insert(p));
                assert(c.files.to_multiset().add(all_files_in(cs).add(Multiset::empty().insert(p)))
                    =~= c.files.to_multiset().add(all_files_in(cs)).insert(p));
            },
        }
    }
}

proof fn lemma_filed_path_under_root(root: Seq<char>, comps: Seq<Seq<char>>)
    requires
        root.len() > 0,
        comps.len() >= 1,
    ensures
        filed_path(root, comps) == root.push('/') + crate::text::join_with(comps, '/'),
    decreases comps.len(),
{
    if comps.len() > 1 {
        let next = joined_path(root, comps[0]);
        lemma_filed_path_under_root(next, comps.skip(1));
        crate::text::lemma_join_first(comps, '/');
        assert(next.push('/') + crate::text::join_with(comps.skip(1), '/') =~= root.push('/') + (
        comps[0].push('/') + crate::text::join_with(comps.skip(1), '/')));
    }
}

/// An entry that does not start with `/` is filed under its own path.
pub proof fn lemma_filed_entry(e: Seq<char>)
    requires
        e.len() == 0 || e[0] != '/',
    ensures
        filed_path(Seq::empty(), split_on(e, '/')) == e,
{
    let comps = split_on(e, '/');
    crate::text::lemma_split_nonempty(e, '/');
    crate::text::lemma_split_join(e, '/');
    if comps.len() > 1 {
        crate::text::lemma_split_first_nonempty(e, '/');
        lemma_filed_path_under_root(comps[0], comps.skip(1));
        crate::text::lemma_join_first(comps, '/');
    }
}

proof fn lemma_add_all_files(c: ChapterModel, entries: Seq<Seq<char>>)
    requires
        forall|i: int| 0 <= i < entries.len() ==> (#[trigger] entries[i]).len() == 0 || entries[i][0] != '/',
    ensures
        all_files(add_all(c, entries)) == all_files(c).add(entries.to_multiset()),
    decreases entries.len(),
{
    broadcast use vstd::seq_lib::group_to_multiset_ensures;

    if entries.len() == 0 {
        assert(all_files(c).add(entries.to_multiset()) =~= all_files(c));
    } else {
        let d = entries.drop_last();
        let e = entries.last();
        assert(entries[entries.len() - 1] == e);
        lemma_add_all_files(c, d);
        crate::text::lemma_split_nonempty(e, '/');
        lemma_add_path_files(add_all(c, d), split_on(e, '/'), Seq::empty());
        lemma_filed_entry(e);
        assert(entries =~= d.push(e));
        assert(all_files(c).add(d.to_multiset()).insert(e) =~= all_files(c).add(d.to_multiset().insert(e)));
    }
}

proof fn lemma_all_files_in_insert(s: Seq<ChapterModel>, j: int, x: ChapterModel)
    requires
        0 <= j <= s.len(),
    ensures
        all_files_in(s.insert(j, x)) == all_files_in(s).add(all_files(x)),
    decreases s.len(),
{
    if j == s.len() {
        assert(s.insert(j, x) =~= s.push(x));
        lemma_all_files_in_push(s, x);
    } else {
        let d = s.drop_last();
        lemma_all_files_in_insert(d, j, x);
        assert(s.insert(j, x) =~= d.insert(j, x).push(s.last()));
        lemma_all_files_in_push(d.insert(j, x), s.last());
        assert(all_files_in(d).add(all_files(x)).add(all_files(s.last())) =~= all_files_in(d).add(
            all_files(s.last()),
        ).add(all_files(x)));
    }
}

proof fn lemma_all_files_in_sort(s: Seq<ChapterModel>)
    ensures
        all_files_in(sort_seq(s, names_after())) == all_files_in(s),
    decreases s.len(),
{
    if s.len() > 0 {
        let d = s.drop_last();
        lemma_all_files_in_sort(d);
        let r0 = sort_seq(d, names_after());
        let j = lemma_insert_is_insert(r0, s.last(), names_after());
        lemma_all_files_in_insert(r0, j, s.last());
    }
}

proof fn lemma_sorted_model_files(c: ChapterModel)
    ensures
        all_files(sorted_model(c)) == all_files(c),
    decreases c,
{
    crate::sort::law_sort_permutation(c.files, paths_after());
    lemma_sorted_each_files(c.chapters);
    lemma_all_files_in_sort(sorted_each(c.chapters));
}

proof fn lemma_sorted_each_files(cs: Seq<ChapterModel>)
    ensures
        all_files_in(sorted_each(cs)) == all_files_in(cs),
    decreases cs,
{
    if cs.len() > 0 {
        lemma_sorted_each_files(cs.drop_last());
        lemma_sorted_model_files(cs[cs.len() - 1]);
        let s = sorted_each(cs.drop_last()).push(sorted_model(cs[cs.len() - 1]));
        lemma_all_files_in_push(sorted_each(cs.drop_last()), sorted_model(cs[cs.len() - 1]));
    }
}

/// Every entry is filed exactly once: the files of a new book, at every
/// level, are its entries, each as often as it is given, provided no entry
/// starts with `/`.
pub proof fn law_new_book_files_every_entry(name: Seq<char>, entries: Seq<Seq<char>>, mdheader: bool)
    requires
        forall|i: int| 0 <= i < entries.len() ==> (#[trigger] entries[i]).len() == 0 || entries[i][0] != '/',
    ensures
        all_files(book_model(name, entries, mdheader)) == entries.to_multiset(),
{
    broadcast use vstd::seq_lib::group_to_multiset_ensures;

    let start = ChapterModel {
        name: name,
        files: Seq::<Seq<char>>::empty(),
        chapters: Seq::<ChapterModel>::empty(),
        mdheader: mdheader,
    };
    assert(all_files_in(start.chapters) =~= Multiset::empty());
    assert(start.files.to_multiset() =~= Multiset::empty());
    lemma_add_all_files(start, entries);
    lemma_sorted_model_files(add_all(start, entries));
    assert(Multiset::<Seq<char>>::empty().add(Multiset::empty()).add(entries.to_multiset()) =~= entries.to_multiset());
}

} // verus!
