//! The first Markdown header of a note, used as its title.
use vstd::prelude::*;
use crate::seqs::{first_index, lemma_first_index_is, lemma_first_index_none};
use crate::text::{
    chars_of, has_prefix, is_space, is_whitespace, lemma_split_nonempty, slice_of, split_chars,
    split_on, starts_with, string_of, texts,
};

verus! {

/// A piece of text without the `\r` that ends it, if any.
pub open spec fn without_cr(p: Seq<char>) -> Seq<char> {
    if p.len() > 0 && p.last() == '\r' {
        p.drop_last()
    } else {
        p
    }
}

/// `str::lines`: the pieces between `\n` characters, each ended piece
/// without a final `\r`; a last piece after the final `\n` only counts when
/// it is not empty.
pub open spec fn text_lines(s: Seq<char>) -> Seq<Seq<char>> {
    let pieces = split_on(s, '\n');
    let n = pieces.len();
    let ended = Seq::new((n - 1) as nat, |i: int| without_cr(pieces[i]));
    if pieces[n - 1].len() == 0 {
        ended
    } else {
        ended.push(pieces[n - 1])
    }
}

/// `# `
pub open spec fn header_mark() -> Seq<char> {
    seq!['#', ' ']
}

/// `str::trim_start_matches("# ")`: every leading `# ` removed.
pub open spec fn without_header_marks(s: Seq<char>) -> Seq<char>
    decreases s.len(),
{
    if s.len() >= 2 && has_prefix(s, header_mark()) {
        without_header_marks(s.skip(2))
    } else {
        s
    }
}

/// `str::trim_start`: leading whitespace removed.
pub open spec fn trim_start(s: Seq<char>) -> Seq<char>
    decreases s.len(),
{
    if s.len() > 0 && is_space(s[0]) {
        trim_start(s.drop_first())
    } else {
        s
    }
}

/// `str::trim_end`: trailing whitespace removed.
pub open spec fn trim_end(s: Seq<char>) -> Seq<char>
    decreases s.len(),
{
    if s.len() > 0 && is_space(s.last()) {
        trim_end(s.drop_last())
    } else {
        s
    }
}

/// The first header of a note: its first line that starts with `# `,
/// without the leading `# ` marks and surrounding whitespace.
pub open spec fn first_header_of(content: Seq<char>) -> Option<Seq<char>> {
    let lines = text_lines(content);
    match first_index(lines, |l: Seq<char>| has_prefix(l, header_mark())) {
        Some(k) => Some(trim_end(trim_start(without_header_marks(lines[k])))),
        None => None,
    }
}

/// The lines of a text.
fn lines_of(s: &Vec<char>) -> (r: Vec<Vec<char>>)
    ensures
        texts(r@) == text_lines(s@),
{
    let pieces = split_chars(s, '\n');
    proof {
        lemma_split_nonempty(s@, '\n');
    }
    let ghost pv = texts(pieces@);
    let n = pieces.len();
    let mut lines: Vec<Vec<char>> = Vec::new();
    let mut i: usize = 0;
    while i + 1 < n
        invariant
            n == pieces@.len(),
            n >= 1,
            i < n,
            pv == texts(pieces@),
            texts(lines@) == Seq::new(i as nat, |j: int| without_cr(pv[j])),
        decreases n - i,
    {
        let p = &pieces[i];
        let len = p.len();
        let line = if len > 0 && p[len - 1] == '\r' {
            slice_of(p, 0, len - 1)
        } else {
            slice_of(p, 0, len)
        };
        assert(line@ =~= without_cr(pv[i as int]));
        let ghost before = texts(lines@);
        lines.push(line);
        assert(texts(lines@) =~= before.push(line@));
        i += 1;
        assert(texts(lines@) =~= Seq::new(i as nat, |j: int| without_cr(pv[j])));
    }
    let last = &pieces[n - 1];
    if last.len() > 0 {
        let ghost before = texts(lines@);
        let copy = slice_of(last, 0, last.len());
        assert(copy@ =~= pv[n - 1]);
        lines.push(copy);
        assert(texts(lines@) =~= before.push(copy@));
    }
    lines
}

fn without_header_marks_of(s: &Vec<char>) -> (r: Vec<char>)
    ensures
        r@ == without_header_marks(s@),
{
    let mut i: usize = 0;
    assert(s@.skip(0) =~= s@);
    while s.len() - i >= 2 && s[i] == '#' && s[i + 1] == ' '
        invariant
            i <= s@.len(),
            without_header_marks(s@.skip(i as int)) == without_header_marks(s@),
        decreases s.len() - i,
    {
        proof {
            let t = s@.skip(i as int);
            assert(t.take(2) =~= header_mark());
            assert(t.skip(2) =~= s@.skip(i + 2));
        }
        i += 2;
    }
    proof {
        let t = s@.skip(i as int);
        if t.len() >= 2 && has_prefix(t, header_mark()) {
            assert(t[0] == t.take(2)[0]);
            assert(t[1] == t.take(2)[1]);
        }
    }
    slice_of(s, i, s.len())
}

fn trim_of(s: &Vec<char>) -> (r: Vec<char>)
    ensures
        r@ == trim_end(trim_start(s@)),
{
    let mut start: usize = 0;
    assert(s@.skip(0) =~= s@);
    while start < s.len() && is_whitespace(s[start])
        invariant
            start <= s@.len(),
            trim_start(s@.skip(start as int)) == trim_start(s@),
        decreases s.len() - start,
    {
        assert(s@.skip(start as int).drop_first() =~= s@.skip(start + 1));
        start += 1;
    }
    let mut end: usize = s.len();
    while end > start && is_whitespace(s[end - 1])
        invariant
            start <= end <= s@.len(),
            trim_end(s@.subrange(start as int, end as int)) == trim_end(s@.skip(start as int)),
        decreases end,
    {
        assert(s@.subrange(start as int, end as int).drop_last() =~= s@.subrange(
            start as int,
            end - 1,
        ));
        end -= 1;
    }
    proof {
        let t = s@.skip(start as int);
        assert(trim_start(t) == t);
        assert(s@.subrange(start as int, s@.len() as int) =~= t);
    }
    let r = slice_of(s, start, end);
    proof {
        let u = s@.subrange(start as int, end as int);
        if u.len() > 0 {
            assert(u.last() == s@[end - 1]);
        }
        assert(trim_end(u) == u);
    }
    r
}

/// The first header of a note's content: the first line that starts with
/// `# `, without its leading `# ` marks and surrounding whitespace.
pub fn first_header(content: &str) -> (r: Option<String>)
    ensures
        match r {
            Some(h) => first_header_of(content@) == Some(h@),
            None => first_header_of(content@) is None,
        },
{
    let text = chars_of(content);
    let lines = lines_of(&text);
    let ghost lv = texts(lines@);
    let ghost p = |l: Seq<char>| has_prefix(l, header_mark());
    let mark = vec!['#', ' '];
    assert(mark@ =~= header_mark());
    let mut i: usize = 0;
    while i < lines.len()
        invariant
            i <= lines@.len(),
            lv == texts(lines@),
            lv == text_lines(content@),
            mark@ == header_mark(),
            p == (|l: Seq<char>| has_prefix(l, header_mark())),
            forall|j: int| 0 <= j < i ==> !p(#[trigger] lv[j]),
        decreases lines.len() - i,
    {
        if starts_with(&lines[i], &mark) {
            proof {
                lemma_first_index_is(lv, p, i as int);
            }
            let stripped = without_header_marks_of(&lines[i]);
            let trimmed = trim_of(&stripped);
            return Some(string_of(&trimmed));
        }
        i += 1;
    }
    proof {
        lemma_first_index_none(lv, p);
    }
    None
}

/// A text without the separator is one piece.
proof fn lemma_split_single(l: Seq<char>, sep: char)
    requires
        !l.contains(sep),
    ensures
        split_on(l, sep) == seq![l],
    decreases l.len(),
{
    if l.len() > 0 {
        let d = l.drop_last();
        assert(!d.contains(sep)) by {
            if d.contains(sep) {
                let k = choose|k: int| 0 <= k < d.len() && d[k] == sep;
                assert(l[k] == sep);
            }
        }
        lemma_split_single(d, sep);
        assert(l.last() != sep) by {
            assert(l[l.len() - 1] == l.last());
        }
        assert(d.push(l.last()) =~= l);
        assert(seq![d].update(0, d.push(l.last())) =~= seq![l]);
    } else {
        assert(l =~= Seq::<char>::empty());
    }
}

/// Splitting a text that starts with a piece and a separator gives that
/// piece, then the pieces of the rest.
proof fn lemma_split_after_piece(l: Seq<char>, rest: Seq<char>, sep: char)
    requires
        !l.contains(sep),
    ensures
        split_on(l.push(sep) + rest, sep) == seq![l] + split_on(rest, sep),
    decreases rest.len(),
{
    if rest.len() == 0 {
        assert(l.push(sep) + rest =~= l.push(sep));
        assert(l.push(sep).drop_last() =~= l);
        lemma_split_single(l, sep);
        assert(seq![l].push(Seq::<char>::empty()) =~= seq![l] + seq![Seq::<char>::empty()]);
    } else {
        let d = rest.drop_last();
        let c = rest.last();
        lemma_split_after_piece(l, d, sep);
        lemma_split_nonempty(d, sep);
        let whole = l.push(sep) + rest;
        assert(whole.drop_last() =~= l.push(sep) + d);
        assert(whole.last() == c);
        let x = split_on(d, sep);
        let y = seq![l] + x;
        if c == sep {
            assert(y.push(Seq::<char>::empty()) =~= seq![l] + x.push(Seq::<char>::empty()));
        } else {
            assert(y.last() == x.last());
            assert(y.update(y.len() - 1, y.last().push(c)) =~= seq![l] + x.update(
                x.len() - 1,
                x.last().push(c),
            ));
        }
    }
}

/// `str::lines` yields nothing for an empty text, the whole text for a
/// non-empty text without a line break (kept as it is, `\r` included), and
/// for a text that starts with a line and a line break, that line without a
/// final `\r` followed by the lines of the rest.
pub proof fn law_text_lines(l: Seq<char>, rest: Seq<char>)
    requires
        !l.contains('\n'),
    ensures
        text_lines(Seq::<char>::empty()).len() == 0,
        l.len() > 0 ==> text_lines(l) == seq![l],
        text_lines(l.push('\n') + rest) == seq![without_cr(l)] + text_lines(rest),
{
    assert(split_on(Seq::<char>::empty(), '\n') =~= seq![Seq::<char>::empty()]);
    lemma_split_single(l, '\n');
    lemma_split_after_piece(l, rest, '\n');
    lemma_split_nonempty(rest, '\n');
    let p = split_on(rest, '\n');
    let q = seq![l] + p;
    let n = p.len();
    let ended_q = Seq::new((q.len() - 1) as nat, |i: int| without_cr(q[i]));
    let ended_p = Seq::new((n - 1) as nat, |i: int| without_cr(p[i]));
    assert(ended_q =~= seq![without_cr(l)] + ended_p);
    assert(q[q.len() - 1] == p[n - 1]);
    if p[n - 1].len() == 0 {
    } else {
        assert(ended_q.push(q[q.len() - 1]) =~= seq![without_cr(l)] + ended_p.push(p[n - 1]));
    }
    if l.len() > 0 {
        assert(Seq::new(0nat, |i: int| without_cr(seq![l][i])) =~= Seq::<Seq<char>>::empty());
        assert(Seq::<Seq<char>>::empty().push(l) =~= seq![l]);
    }
}

/// A note of one line, without a line break, that starts with `# ` has that
/// line, without its `# ` marks and surrounding whitespace, as its header;
/// one that does not start with `# ` has none.
pub proof fn law_first_header_single_line(s: Seq<char>)
    requires
        !s.contains('\n'),
    ensures
        has_prefix(s, header_mark()) ==> first_header_of(s) == Some(
            trim_end(trim_start(without_header_marks(s))),
        ),
        !has_prefix(s, header_mark()) ==> first_header_of(s) is None,
{
    law_text_lines(s, Seq::<char>::empty());
    let p = |l: Seq<char>| has_prefix(l, header_mark());
    if s.len() > 0 {
        assert(text_lines(s) == seq![s]);
        assert(seq![s][0] == s);
        if has_prefix(s, header_mark()) {
            lemma_first_index_is(seq![s], p, 0);
        } else {
            lemma_first_index_none(seq![s], p);
        }
    } else {
        assert(!has_prefix(s, header_mark()));
        lemma_first_index_none(text_lines(s), p);
    }
}

proof fn lemma_trim_start(s: Seq<char>)
    ensures
        trim_start(s).len() == 0 || !is_space(trim_start(s)[0]),
    decreases s.len(),
{
    if s.len() > 0 && is_space(s[0]) {
        lemma_trim_start(s.drop_first());
    }
}

proof fn lemma_trim_end(s: Seq<char>)
    ensures
        trim_end(s).len() <= s.len(),
        trim_end(s) == s.take(trim_end(s).len() as int),
        trim_end(s).len() == 0 || !is_space(trim_end(s).last()),
    decreases s.len(),
{
    if s.len() > 0 && is_space(s.last()) {
        lemma_trim_end(s.drop_last());
        let t = trim_end(s.drop_last());
        assert(s.drop_last().take(t.len() as int) =~= s.take(t.len() as int));
    } else {
        assert(s.take(s.len() as int) =~= s);
    }
}

/// A first header neither starts nor ends with whitespace.
pub proof fn law_first_header_trimmed(content: Seq<char>)
    ensures
        first_header_of(content) matches Some(h) ==> h.len() == 0 || (!is_space(h[0]) && !is_space(
            h.last(),
        )),
{
    if let Some(h) = first_header_of(content) {
        let lines = text_lines(content);
        let k = first_index(lines, |l: Seq<char>| has_prefix(l, header_mark())).unwrap();
        let t = trim_start(without_header_marks(lines[k]));
        lemma_trim_start(without_header_marks(lines[k]));
        lemma_trim_end(t);
        if h.len() > 0 {
            assert(h[0] == t[0]);
        }
    }
}

} // verus!
